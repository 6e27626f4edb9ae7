//! Reading and writing the binary payload.

use vstd::prelude::*;
use crate::bytes::{
    i8_bits, i32_bits, i16_from, i16_from_bits, i16_to_bits, i32_from, i32_from_bits, i32_to_bits, i8_from,
    i8_from_bits, i8_to_bits, le16, le32, lemma_i16_from_round, lemma_i32_from_round,
    lemma_i8_from_round, lemma_words_bytes_len, put_u16, put_u32, put_u8, put_words, u16_at,
    u32_at, u32_of, words_at, words_bytes,
};
use crate::error::BlueprintError;
use crate::items::{
    is_belt, is_interstellar_station, is_station, item_is_belt, item_is_interstellar_station,
    item_is_station, station_storage_count, storage_count,
};
use crate::model::{
    Area, BlueprintData, Building, BuildingHeader, BuildingParam, data_encodable, enc_area,
    enc_areas, enc_building, enc_buildings, enc_data, enc_data_head, enc_header, header_is_v2,
    param_words, storage_words, storages_words, StationStorage, Belt, Station, header_len,
    param_fits, building_wf, data_wf, ParamModel, DataModel, BuildingModel,
};
use crate::bytes::{i16_bits, lemma_i32_bits_round, lemma_u16_of_le16};

verus! {

#[verifier::rlimit(100)]
pub fn encode_header(out: &mut Vec<u8>, h: &BuildingHeader)
    ensures
        final(out)@ == old(out)@ + enc_header(*h),
{
    let ghost start = out@;
    let v2 = h.first_int <= -100;
    put_u32(out, i32_to_bits(h.first_int));
    let ghost a0 = le32(i32_bits(h.first_int));
    assert(out@ =~= start + a0);
    if v2 {
        put_u32(out, h.index_v2);
    }
    let ghost a1 = a0 + (if v2 { le32(h.index_v2) } else { seq![] });
    assert(out@ =~= start + a1);
    put_u8(out, i8_to_bits(h.area_index));
    let ghost a2 = a1 + seq![i8_bits(h.area_index)];
    assert(out@ =~= start + a2);
    put_u32(out, h.local_offset_x);
    let ghost a3 = a2 + le32(h.local_offset_x);
    assert(out@ =~= start + a3);
    put_u32(out, h.local_offset_y);
    let ghost a4 = a3 + le32(h.local_offset_y);
    assert(out@ =~= start + a4);
    put_u32(out, h.local_offset_z);
    let ghost a5 = a4 + le32(h.local_offset_z);
    assert(out@ =~= start + a5);
    put_u32(out, h.local_offset_x2);
    let ghost a6 = a5 + le32(h.local_offset_x2);
    assert(out@ =~= start + a6);
    put_u32(out, h.local_offset_y2);
    let ghost a7 = a6 + le32(h.local_offset_y2);
    assert(out@ =~= start + a7);
    put_u32(out, h.local_offset_z2);
    let ghost a8 = a7 + le32(h.local_offset_z2);
    assert(out@ =~= start + a8);
    put_u32(out, h.yaw);
    let ghost a9 = a8 + le32(h.yaw);
    assert(out@ =~= start + a9);
    put_u32(out, h.yaw2);
    let ghost a10 = a9 + le32(h.yaw2);
    assert(out@ =~= start + a10);
    if v2 {
        put_u32(out, h.tilt_v2);
    }
    let ghost a11 = a10 + (if v2 { le32(h.tilt_v2) } else { seq![] });
    assert(out@ =~= start + a11);
    put_u16(out, h.item_id);
    let ghost a12 = a11 + le16(h.item_id);
    assert(out@ =~= start + a12);
    put_u16(out, h.model_index);
    let ghost a13 = a12 + le16(h.model_index);
    assert(out@ =~= start + a13);
    put_u32(out, h.output_object_index);
    let ghost a14 = a13 + le32(h.output_object_index);
    assert(out@ =~= start + a14);
    put_u32(out, h.input_object_index);
    let ghost a15 = a14 + le32(h.input_object_index);
    assert(out@ =~= start + a15);
    put_u8(out, i8_to_bits(h.output_to_slot));
    put_u8(out, i8_to_bits(h.input_from_slot));
    put_u8(out, i8_to_bits(h.output_from_slot));
    put_u8(out, i8_to_bits(h.input_to_slot));
    put_u8(out, i8_to_bits(h.output_offset));
    put_u8(out, i8_to_bits(h.input_offset));
    let ghost a16 = a15 + seq![i8_bits(h.output_to_slot), i8_bits(h.input_from_slot), i8_bits(h.output_from_slot), i8_bits(h.input_to_slot), i8_bits(h.output_offset), i8_bits(h.input_offset)];
    assert(out@ =~= start + a16);
    put_u16(out, h.recipe_id);
    let ghost a17 = a16 + le16(h.recipe_id);
    assert(out@ =~= start + a17);
    put_u16(out, h.filter_id);
    let ghost a18 = a17 + le16(h.filter_id);
    assert(out@ =~= start + a18);
    put_u16(out, h.parameter_count);
    let ghost a19 = a18 + le16(h.parameter_count);
    assert(out@ =~= start + a19);
    assert(enc_header(*h) == a19);
}

fn encode_storage(out: &mut Vec<u8>, s: &Vec<StationStorage>)
    ensures
        final(out)@ == old(out)@ + words_bytes(storages_words(s@)),
{
    let ghost start = out@;
    let mut i: usize = 0;
    while i < s.len()
        invariant
            i <= s@.len(),
            out@ == start + words_bytes(storages_words(s@.subrange(0, i as int))),
        decreases s.len() - i,
    {
        let e = s[i];
        let ghost before = out@;
        put_u32(out, e.item_id);
        put_u32(out, e.local_logic);
        put_u32(out, e.remote_logic);
        put_u32(out, e.max_count);
        put_u32(out, e.reserved0);
        put_u32(out, e.reserved1);
        proof {
            let pre = s@.subrange(0, i as int);
            let post = s@.subrange(0, i + 1);
            assert(post.drop_last() =~= pre);
            lemma_words_bytes_append(storages_words(pre), storage_words(e));
            let w = storage_words(e);
            assert(words_bytes(w) =~= le32(w[0]) + le32(w[1]) + le32(w[2]) + le32(w[3]) + le32(w[4])
                + le32(w[5])) by {
                reveal_with_fuel(words_bytes, 7);
                assert(w.drop_last().drop_last().drop_last().drop_last().drop_last().drop_last()
                    =~= seq![]);
                assert(w.drop_last().drop_last().drop_last().drop_last().drop_last() =~= seq![w[0]]);
                assert(w.drop_last().drop_last().drop_last().drop_last() =~= seq![w[0], w[1]]);
                assert(w.drop_last().drop_last().drop_last() =~= seq![w[0], w[1], w[2]]);
                assert(w.drop_last().drop_last() =~= seq![w[0], w[1], w[2], w[3]]);
                assert(w.drop_last() =~= seq![w[0], w[1], w[2], w[3], w[4]]);
            }
            assert(out@ =~= start + words_bytes(storages_words(post)));
        }
        i += 1;
    }
    assert(s@.subrange(0, s@.len() as int) =~= s@);
}

pub proof fn lemma_words_bytes_append(a: Seq<u32>, b: Seq<u32>)
    ensures
        words_bytes(a + b) == words_bytes(a) + words_bytes(b),
    decreases b.len(),
{
    if b.len() == 0 {
        assert(a + b =~= a);
        assert(words_bytes(a) + words_bytes(b) =~= words_bytes(a));
    } else {
        assert((a + b).drop_last() =~= a + b.drop_last());
        lemma_words_bytes_append(a, b.drop_last());
        assert(words_bytes(a + b) =~= words_bytes(a) + words_bytes(b));
    }
}

pub fn encode_building(out: &mut Vec<u8>, b: &Building)
    ensures
        final(out)@ == old(out)@ + enc_building(b@),
{
    let ghost start = out@;
    encode_header(out, &b.header);
    let ghost mid = out@;
    match &b.param {
        BuildingParam::Station(s) => {
            encode_storage(out, &s.storage);
            put_words(out, &s.tail);
            proof {
                lemma_words_bytes_append(storages_words(s.storage@), s.tail@);
            }
        },
        BuildingParam::Belt(None) => {
            assert(words_bytes(seq![]) =~= seq![]);
        },
        BuildingParam::Belt(Some(belt)) => {
            put_words(out, &belt.words);
        },
        BuildingParam::Unknown(w) => {
            put_words(out, w);
        },
    }
    assert(out@ =~= start + enc_building(b@));
}

pub fn encode_area(out: &mut Vec<u8>, a: &Area)
    ensures
        final(out)@ == old(out)@ + enc_area(*a),
{
    let ghost start = out@;
    put_u8(out, i8_to_bits(a.index));
    put_u8(out, i8_to_bits(a.parent_index));
    put_u16(out, i16_to_bits(a.tropic_anchor));
    put_u16(out, i16_to_bits(a.area_segments));
    put_u16(out, i16_to_bits(a.anchor_local_offset_x));
    put_u16(out, i16_to_bits(a.anchor_local_offset_y));
    put_u16(out, i16_to_bits(a.width));
    put_u16(out, i16_to_bits(a.height));
    assert(out@ =~= start + enc_area(*a));
}

/// Writes a payload in its wire form.
pub fn encode_data(d: &BlueprintData) -> (r: Vec<u8>)
    requires
        data_encodable(d@),
    ensures
        r@ == enc_data(d@),
{
    let mut out: Vec<u8> = Vec::new();
    put_u32(&mut out, i32_to_bits(d.version));
    put_u32(&mut out, i32_to_bits(d.cursor_offset_x));
    put_u32(&mut out, i32_to_bits(d.cursor_offset_y));
    put_u32(&mut out, i32_to_bits(d.cursor_target_area));
    put_u32(&mut out, i32_to_bits(d.drag_box_size_x));
    put_u32(&mut out, i32_to_bits(d.drag_box_size_y));
    put_u32(&mut out, i32_to_bits(d.primary_area_idx));
    assert(out@ =~= enc_data_head(d@));
    put_u8(&mut out, d.areas.len() as u8);
    let ghost head = out@;
    let mut i: usize = 0;
    while i < d.areas.len()
        invariant
            i <= d.areas@.len(),
            out@ == head + enc_areas(d.areas@.subrange(0, i as int)),
        decreases d.areas.len() - i,
    {
        encode_area(&mut out, &d.areas[i]);
        assert(d.areas@.subrange(0, i + 1).drop_last() =~= d.areas@.subrange(0, i as int));
        assert(out@ =~= head + enc_areas(d.areas@.subrange(0, i + 1)));
        i += 1;
    }
    assert(d.areas@.subrange(0, d.areas@.len() as int) =~= d.areas@);
    put_u32(&mut out, d.buildings.len() as u32);
    let ghost mid = out@;
    let ghost bs = d@.buildings;
    let mut j: usize = 0;
    while j < d.buildings.len()
        invariant
            j <= d.buildings@.len(),
            bs == d@.buildings,
            bs.len() == d.buildings@.len(),
            out@ == mid + enc_buildings(bs.subrange(0, j as int)),
        decreases d.buildings.len() - j,
    {
        encode_building(&mut out, &d.buildings[j]);
        assert(bs.subrange(0, j + 1).drop_last() =~= bs.subrange(0, j as int));
        assert(bs[j as int] == d.buildings@[j as int]@);
        assert(out@ =~= mid + enc_buildings(bs.subrange(0, j + 1)));
        j += 1;
    }
    assert(bs.subrange(0, bs.len() as int) =~= bs);
    assert(out@ =~= enc_data(d@));
    out
}

/// The first word of a record at `pos`, read as a signed integer.
pub open spec fn first_int_at(s: Seq<u8>, pos: int) -> i32 {
    i32_from(u32_of(s[pos], s[pos + 1], s[pos + 2], s[pos + 3]))
}

/// The bytes from `pos` on hold a whole header.
pub open spec fn header_fits(s: Seq<u8>, pos: int) -> bool {
    pos + 4 <= s.len() && pos + header_len(first_int_at(s, pos)) <= s.len()
}

proof fn lemma_header_window_v1(s: Seq<u8>, p: int, h: BuildingHeader)
    requires
        0 <= p,
        p + 61 <= s.len(),
        !(h.first_int <= -100),
            le32(i32_bits(h.first_int)) == s.subrange(p + 0, p + 4),
            seq![i8_bits(h.area_index)] == s.subrange(p + 4, p + 5),
            le32(h.local_offset_x) == s.subrange(p + 5, p + 9),
            le32(h.local_offset_y) == s.subrange(p + 9, p + 13),
            le32(h.local_offset_z) == s.subrange(p + 13, p + 17),
            le32(h.local_offset_x2) == s.subrange(p + 17, p + 21),
            le32(h.local_offset_y2) == s.subrange(p + 21, p + 25),
            le32(h.local_offset_z2) == s.subrange(p + 25, p + 29),
            le32(h.yaw) == s.subrange(p + 29, p + 33),
            le32(h.yaw2) == s.subrange(p + 33, p + 37),
            le16(h.item_id) == s.subrange(p + 37, p + 39),
            le16(h.model_index) == s.subrange(p + 39, p + 41),
            le32(h.output_object_index) == s.subrange(p + 41, p + 45),
            le32(h.input_object_index) == s.subrange(p + 45, p + 49),
            seq![i8_bits(h.output_to_slot), i8_bits(h.input_from_slot), i8_bits(h.output_from_slot), i8_bits(h.input_to_slot), i8_bits(h.output_offset), i8_bits(h.input_offset)] == s.subrange(p + 49, p + 55),
            le16(h.recipe_id) == s.subrange(p + 55, p + 57),
            le16(h.filter_id) == s.subrange(p + 57, p + 59),
            le16(h.parameter_count) == s.subrange(p + 59, p + 61),
    ensures
        enc_header(h) == s.subrange(p, p + 61),
{
    let ghost a0 = le32(i32_bits(h.first_int));
    assert(a0 =~= s.subrange(p, p + 4));
    let ghost a1 = a0 + seq![];
    assert(a1 =~= s.subrange(p, p + 4));
    let ghost a2 = a1 + seq![i8_bits(h.area_index)];
    assert(a2 =~= s.subrange(p, p + 5));
    let ghost a3 = a2 + le32(h.local_offset_x);
    assert(a3 =~= s.subrange(p, p + 9));
    let ghost a4 = a3 + le32(h.local_offset_y);
    assert(a4 =~= s.subrange(p, p + 13));
    let ghost a5 = a4 + le32(h.local_offset_z);
    assert(a5 =~= s.subrange(p, p + 17));
    let ghost a6 = a5 + le32(h.local_offset_x2);
    assert(a6 =~= s.subrange(p, p + 21));
    let ghost a7 = a6 + le32(h.local_offset_y2);
    assert(a7 =~= s.subrange(p, p + 25));
    let ghost a8 = a7 + le32(h.local_offset_z2);
    assert(a8 =~= s.subrange(p, p + 29));
    let ghost a9 = a8 + le32(h.yaw);
    assert(a9 =~= s.subrange(p, p + 33));
    let ghost a10 = a9 + le32(h.yaw2);
    assert(a10 =~= s.subrange(p, p + 37));
    let ghost a11 = a10 + seq![];
    assert(a11 =~= s.subrange(p, p + 37));
    let ghost a12 = a11 + le16(h.item_id);
    assert(a12 =~= s.subrange(p, p + 39));
    let ghost a13 = a12 + le16(h.model_index);
    assert(a13 =~= s.subrange(p, p + 41));
    let ghost a14 = a13 + le32(h.output_object_index);
    assert(a14 =~= s.subrange(p, p + 45));
    let ghost a15 = a14 + le32(h.input_object_index);
    assert(a15 =~= s.subrange(p, p + 49));
    let ghost a16 = a15 + seq![i8_bits(h.output_to_slot), i8_bits(h.input_from_slot), i8_bits(h.output_from_slot), i8_bits(h.input_to_slot), i8_bits(h.output_offset), i8_bits(h.input_offset)];
    assert(a16 =~= s.subrange(p, p + 55));
    let ghost a17 = a16 + le16(h.recipe_id);
    assert(a17 =~= s.subrange(p, p + 57));
    let ghost a18 = a17 + le16(h.filter_id);
    assert(a18 =~= s.subrange(p, p + 59));
    let ghost a19 = a18 + le16(h.parameter_count);
    assert(a19 =~= s.subrange(p, p + 61));
    assert(enc_header(h) == a19);
}

proof fn lemma_header_window_v2(s: Seq<u8>, p: int, h: BuildingHeader)
    requires
        0 <= p,
        p + 69 <= s.len(),
        h.first_int <= -100,
            le32(i32_bits(h.first_int)) == s.subrange(p + 0, p + 4),
            le32(h.index_v2) == s.subrange(p + 4, p + 8),
            seq![i8_bits(h.area_index)] == s.subrange(p + 8, p + 9),
            le32(h.local_offset_x) == s.subrange(p + 9, p + 13),
            le32(h.local_offset_y) == s.subrange(p + 13, p + 17),
            le32(h.local_offset_z) == s.subrange(p + 17, p + 21),
            le32(h.local_offset_x2) == s.subrange(p + 21, p + 25),
            le32(h.local_offset_y2) == s.subrange(p + 25, p + 29),
            le32(h.local_offset_z2) == s.subrange(p + 29, p + 33),
            le32(h.yaw) == s.subrange(p + 33, p + 37),
            le32(h.yaw2) == s.subrange(p + 37, p + 41),
            le32(h.tilt_v2) == s.subrange(p + 41, p + 45),
            le16(h.item_id) == s.subrange(p + 45, p + 47),
            le16(h.model_index) == s.subrange(p + 47, p + 49),
            le32(h.output_object_index) == s.subrange(p + 49, p + 53),
            le32(h.input_object_index) == s.subrange(p + 53, p + 57),
            seq![i8_bits(h.output_to_slot), i8_bits(h.input_from_slot), i8_bits(h.output_from_slot), i8_bits(h.input_to_slot), i8_bits(h.output_offset), i8_bits(h.input_offset)] == s.subrange(p + 57, p + 63),
            le16(h.recipe_id) == s.subrange(p + 63, p + 65),
            le16(h.filter_id) == s.subrange(p + 65, p + 67),
            le16(h.parameter_count) == s.subrange(p + 67, p + 69),
    ensures
        enc_header(h) == s.subrange(p, p + 69),
{
    let ghost a0 = le32(i32_bits(h.first_int));
    assert(a0 =~= s.subrange(p, p + 4));
    let ghost a1 = a0 + le32(h.index_v2);
    assert(a1 =~= s.subrange(p, p + 8));
    let ghost a2 = a1 + seq![i8_bits(h.area_index)];
    assert(a2 =~= s.subrange(p, p + 9));
    let ghost a3 = a2 + le32(h.local_offset_x);
    assert(a3 =~= s.subrange(p, p + 13));
    let ghost a4 = a3 + le32(h.local_offset_y);
    assert(a4 =~= s.subrange(p, p + 17));
    let ghost a5 = a4 + le32(h.local_offset_z);
    assert(a5 =~= s.subrange(p, p + 21));
    let ghost a6 = a5 + le32(h.local_offset_x2);
    assert(a6 =~= s.subrange(p, p + 25));
    let ghost a7 = a6 + le32(h.local_offset_y2);
    assert(a7 =~= s.subrange(p, p + 29));
    let ghost a8 = a7 + le32(h.local_offset_z2);
    assert(a8 =~= s.subrange(p, p + 33));
    let ghost a9 = a8 + le32(h.yaw);
    assert(a9 =~= s.subrange(p, p + 37));
    let ghost a10 = a9 + le32(h.yaw2);
    assert(a10 =~= s.subrange(p, p + 41));
    let ghost a11 = a10 + le32(h.tilt_v2);
    assert(a11 =~= s.subrange(p, p + 45));
    let ghost a12 = a11 + le16(h.item_id);
    assert(a12 =~= s.subrange(p, p + 47));
    let ghost a13 = a12 + le16(h.model_index);
    assert(a13 =~= s.subrange(p, p + 49));
    let ghost a14 = a13 + le32(h.output_object_index);
    assert(a14 =~= s.subrange(p, p + 53));
    let ghost a15 = a14 + le32(h.input_object_index);
    assert(a15 =~= s.subrange(p, p + 57));
    let ghost a16 = a15 + seq![i8_bits(h.output_to_slot), i8_bits(h.input_from_slot), i8_bits(h.output_from_slot), i8_bits(h.input_to_slot), i8_bits(h.output_offset), i8_bits(h.input_offset)];
    assert(a16 =~= s.subrange(p, p + 63));
    let ghost a17 = a16 + le16(h.recipe_id);
    assert(a17 =~= s.subrange(p, p + 65));
    let ghost a18 = a17 + le16(h.filter_id);
    assert(a18 =~= s.subrange(p, p + 67));
    let ghost a19 = a18 + le16(h.parameter_count);
    assert(a19 =~= s.subrange(p, p + 69));
    assert(enc_header(h) == a19);
}

proof fn lemma_header_pieces_v1(s: Seq<u8>, p: int, h: BuildingHeader)
    requires
        0 <= p,
        p + 61 <= s.len(),
        !(h.first_int <= -100),
        s.subrange(p, p + 61) == enc_header(h),
    ensures
        le16(h.parameter_count) == s.subrange(p + 59, p + 61),
        le16(h.filter_id) == s.subrange(p + 57, p + 59),
        le16(h.recipe_id) == s.subrange(p + 55, p + 57),
        seq![i8_bits(h.output_to_slot), i8_bits(h.input_from_slot), i8_bits(h.output_from_slot), i8_bits(h.input_to_slot), i8_bits(h.output_offset), i8_bits(h.input_offset)] == s.subrange(p + 49, p + 55),
        le32(h.input_object_index) == s.subrange(p + 45, p + 49),
        le32(h.output_object_index) == s.subrange(p + 41, p + 45),
        le16(h.model_index) == s.subrange(p + 39, p + 41),
        le16(h.item_id) == s.subrange(p + 37, p + 39),
        le32(h.yaw2) == s.subrange(p + 33, p + 37),
        le32(h.yaw) == s.subrange(p + 29, p + 33),
        le32(h.local_offset_z2) == s.subrange(p + 25, p + 29),
        le32(h.local_offset_y2) == s.subrange(p + 21, p + 25),
        le32(h.local_offset_x2) == s.subrange(p + 17, p + 21),
        le32(h.local_offset_z) == s.subrange(p + 13, p + 17),
        le32(h.local_offset_y) == s.subrange(p + 9, p + 13),
        le32(h.local_offset_x) == s.subrange(p + 5, p + 9),
        seq![i8_bits(h.area_index)] == s.subrange(p + 4, p + 5),
        le32(i32_bits(h.first_int)) == s.subrange(p, p + 4),
{
    let a0 = le32(i32_bits(h.first_int));
    let a1 = a0 + seq![];
    let a2 = a1 + seq![i8_bits(h.area_index)];
    let a3 = a2 + le32(h.local_offset_x);
    let a4 = a3 + le32(h.local_offset_y);
    let a5 = a4 + le32(h.local_offset_z);
    let a6 = a5 + le32(h.local_offset_x2);
    let a7 = a6 + le32(h.local_offset_y2);
    let a8 = a7 + le32(h.local_offset_z2);
    let a9 = a8 + le32(h.yaw);
    let a10 = a9 + le32(h.yaw2);
    let a11 = a10 + seq![];
    let a12 = a11 + le16(h.item_id);
    let a13 = a12 + le16(h.model_index);
    let a14 = a13 + le32(h.output_object_index);
    let a15 = a14 + le32(h.input_object_index);
    let a16 = a15 + seq![i8_bits(h.output_to_slot), i8_bits(h.input_from_slot), i8_bits(h.output_from_slot), i8_bits(h.input_to_slot), i8_bits(h.output_offset), i8_bits(h.input_offset)];
    let a17 = a16 + le16(h.recipe_id);
    let a18 = a17 + le16(h.filter_id);
    let a19 = a18 + le16(h.parameter_count);
    assert(enc_header(h) == a19);
    let w = s.subrange(p, p + 61);
    assert(a19 =~= w);
    assert(a18 =~= w.subrange(0, 59));
    assert(a19 =~= w.subrange(0, 61));
    assert(a19.subrange(59, 61) =~= le16(h.parameter_count));
    assert(w.subrange(59, 61) =~= s.subrange(p + 59, p + 61));
    assert(a17 =~= w.subrange(0, 57));
    assert(a18 =~= w.subrange(0, 59));
    assert(a18.subrange(57, 59) =~= le16(h.filter_id));
    assert(w.subrange(57, 59) =~= s.subrange(p + 57, p + 59));
    assert(a16 =~= w.subrange(0, 55));
    assert(a17 =~= w.subrange(0, 57));
    assert(a17.subrange(55, 57) =~= le16(h.recipe_id));
    assert(w.subrange(55, 57) =~= s.subrange(p + 55, p + 57));
    assert(a15 =~= w.subrange(0, 49));
    assert(a16 =~= w.subrange(0, 55));
    assert(a16.subrange(49, 55) =~= seq![i8_bits(h.output_to_slot), i8_bits(h.input_from_slot), i8_bits(h.output_from_slot), i8_bits(h.input_to_slot), i8_bits(h.output_offset), i8_bits(h.input_offset)]);
    assert(w.subrange(49, 55) =~= s.subrange(p + 49, p + 55));
    assert(a14 =~= w.subrange(0, 45));
    assert(a15 =~= w.subrange(0, 49));
    assert(a15.subrange(45, 49) =~= le32(h.input_object_index));
    assert(w.subrange(45, 49) =~= s.subrange(p + 45, p + 49));
    assert(a13 =~= w.subrange(0, 41));
    assert(a14 =~= w.subrange(0, 45));
    assert(a14.subrange(41, 45) =~= le32(h.output_object_index));
    assert(w.subrange(41, 45) =~= s.subrange(p + 41, p + 45));
    assert(a12 =~= w.subrange(0, 39));
    assert(a13 =~= w.subrange(0, 41));
    assert(a13.subrange(39, 41) =~= le16(h.model_index));
    assert(w.subrange(39, 41) =~= s.subrange(p + 39, p + 41));
    assert(a11 =~= w.subrange(0, 37));
    assert(a12 =~= w.subrange(0, 39));
    assert(a12.subrange(37, 39) =~= le16(h.item_id));
    assert(w.subrange(37, 39) =~= s.subrange(p + 37, p + 39));
    assert(a10 =~= w.subrange(0, 37));
    assert(a9 =~= w.subrange(0, 33));
    assert(a10 =~= w.subrange(0, 37));
    assert(a10.subrange(33, 37) =~= le32(h.yaw2));
    assert(w.subrange(33, 37) =~= s.subrange(p + 33, p + 37));
    assert(a8 =~= w.subrange(0, 29));
    assert(a9 =~= w.subrange(0, 33));
    assert(a9.subrange(29, 33) =~= le32(h.yaw));
    assert(w.subrange(29, 33) =~= s.subrange(p + 29, p + 33));
    assert(a7 =~= w.subrange(0, 25));
    assert(a8 =~= w.subrange(0, 29));
    assert(a8.subrange(25, 29) =~= le32(h.local_offset_z2));
    assert(w.subrange(25, 29) =~= s.subrange(p + 25, p + 29));
    assert(a6 =~= w.subrange(0, 21));
    assert(a7 =~= w.subrange(0, 25));
    assert(a7.subrange(21, 25) =~= le32(h.local_offset_y2));
    assert(w.subrange(21, 25) =~= s.subrange(p + 21, p + 25));
    assert(a5 =~= w.subrange(0, 17));
    assert(a6 =~= w.subrange(0, 21));
    assert(a6.subrange(17, 21) =~= le32(h.local_offset_x2));
    assert(w.subrange(17, 21) =~= s.subrange(p + 17, p + 21));
    assert(a4 =~= w.subrange(0, 13));
    assert(a5 =~= w.subrange(0, 17));
    assert(a5.subrange(13, 17) =~= le32(h.local_offset_z));
    assert(w.subrange(13, 17) =~= s.subrange(p + 13, p + 17));
    assert(a3 =~= w.subrange(0, 9));
    assert(a4 =~= w.subrange(0, 13));
    assert(a4.subrange(9, 13) =~= le32(h.local_offset_y));
    assert(w.subrange(9, 13) =~= s.subrange(p + 9, p + 13));
    assert(a2 =~= w.subrange(0, 5));
    assert(a3 =~= w.subrange(0, 9));
    assert(a3.subrange(5, 9) =~= le32(h.local_offset_x));
    assert(w.subrange(5, 9) =~= s.subrange(p + 5, p + 9));
    assert(a1 =~= w.subrange(0, 4));
    assert(a2 =~= w.subrange(0, 5));
    assert(a2.subrange(4, 5) =~= seq![i8_bits(h.area_index)]);
    assert(w.subrange(4, 5) =~= s.subrange(p + 4, p + 5));
    assert(a0 =~= w.subrange(0, 4));
    assert(a0 =~= s.subrange(p, p + 4));
}

proof fn lemma_header_pieces_v2(s: Seq<u8>, p: int, h: BuildingHeader)
    requires
        0 <= p,
        p + 69 <= s.len(),
        h.first_int <= -100,
        s.subrange(p, p + 69) == enc_header(h),
    ensures
        le16(h.parameter_count) == s.subrange(p + 67, p + 69),
        le16(h.filter_id) == s.subrange(p + 65, p + 67),
        le16(h.recipe_id) == s.subrange(p + 63, p + 65),
        seq![i8_bits(h.output_to_slot), i8_bits(h.input_from_slot), i8_bits(h.output_from_slot), i8_bits(h.input_to_slot), i8_bits(h.output_offset), i8_bits(h.input_offset)] == s.subrange(p + 57, p + 63),
        le32(h.input_object_index) == s.subrange(p + 53, p + 57),
        le32(h.output_object_index) == s.subrange(p + 49, p + 53),
        le16(h.model_index) == s.subrange(p + 47, p + 49),
        le16(h.item_id) == s.subrange(p + 45, p + 47),
        le32(h.tilt_v2) == s.subrange(p + 41, p + 45),
        le32(h.yaw2) == s.subrange(p + 37, p + 41),
        le32(h.yaw) == s.subrange(p + 33, p + 37),
        le32(h.local_offset_z2) == s.subrange(p + 29, p + 33),
        le32(h.local_offset_y2) == s.subrange(p + 25, p + 29),
        le32(h.local_offset_x2) == s.subrange(p + 21, p + 25),
        le32(h.local_offset_z) == s.subrange(p + 17, p + 21),
        le32(h.local_offset_y) == s.subrange(p + 13, p + 17),
        le32(h.local_offset_x) == s.subrange(p + 9, p + 13),
        seq![i8_bits(h.area_index)] == s.subrange(p + 8, p + 9),
        le32(h.index_v2) == s.subrange(p + 4, p + 8),
        le32(i32_bits(h.first_int)) == s.subrange(p, p + 4),
{
    let a0 = le32(i32_bits(h.first_int));
    let a1 = a0 + le32(h.index_v2);
    let a2 = a1 + seq![i8_bits(h.area_index)];
    let a3 = a2 + le32(h.local_offset_x);
    let a4 = a3 + le32(h.local_offset_y);
    let a5 = a4 + le32(h.local_offset_z);
    let a6 = a5 + le32(h.local_offset_x2);
    let a7 = a6 + le32(h.local_offset_y2);
    let a8 = a7 + le32(h.local_offset_z2);
    let a9 = a8 + le32(h.yaw);
    let a10 = a9 + le32(h.yaw2);
    let a11 = a10 + le32(h.tilt_v2);
    let a12 = a11 + le16(h.item_id);
    let a13 = a12 + le16(h.model_index);
    let a14 = a13 + le32(h.output_object_index);
    let a15 = a14 + le32(h.input_object_index);
    let a16 = a15 + seq![i8_bits(h.output_to_slot), i8_bits(h.input_from_slot), i8_bits(h.output_from_slot), i8_bits(h.input_to_slot), i8_bits(h.output_offset), i8_bits(h.input_offset)];
    let a17 = a16 + le16(h.recipe_id);
    let a18 = a17 + le16(h.filter_id);
    let a19 = a18 + le16(h.parameter_count);
    assert(enc_header(h) == a19);
    let w = s.subrange(p, p + 69);
    assert(a19 =~= w);
    assert(a18 =~= w.subrange(0, 67));
    assert(a19 =~= w.subrange(0, 69));
    assert(a19.subrange(67, 69) =~= le16(h.parameter_count));
    assert(w.subrange(67, 69) =~= s.subrange(p + 67, p + 69));
    assert(a17 =~= w.subrange(0, 65));
    assert(a18 =~= w.subrange(0, 67));
    assert(a18.subrange(65, 67) =~= le16(h.filter_id));
    assert(w.subrange(65, 67) =~= s.subrange(p + 65, p + 67));
    assert(a16 =~= w.subrange(0, 63));
    assert(a17 =~= w.subrange(0, 65));
    assert(a17.subrange(63, 65) =~= le16(h.recipe_id));
    assert(w.subrange(63, 65) =~= s.subrange(p + 63, p + 65));
    assert(a15 =~= w.subrange(0, 57));
    assert(a16 =~= w.subrange(0, 63));
    assert(a16.subrange(57, 63) =~= seq![i8_bits(h.output_to_slot), i8_bits(h.input_from_slot), i8_bits(h.output_from_slot), i8_bits(h.input_to_slot), i8_bits(h.output_offset), i8_bits(h.input_offset)]);
    assert(w.subrange(57, 63) =~= s.subrange(p + 57, p + 63));
    assert(a14 =~= w.subrange(0, 53));
    assert(a15 =~= w.subrange(0, 57));
    assert(a15.subrange(53, 57) =~= le32(h.input_object_index));
    assert(w.subrange(53, 57) =~= s.subrange(p + 53, p + 57));
    assert(a13 =~= w.subrange(0, 49));
    assert(a14 =~= w.subrange(0, 53));
    assert(a14.subrange(49, 53) =~= le32(h.output_object_index));
    assert(w.subrange(49, 53) =~= s.subrange(p + 49, p + 53));
    assert(a12 =~= w.subrange(0, 47));
    assert(a13 =~= w.subrange(0, 49));
    assert(a13.subrange(47, 49) =~= le16(h.model_index));
    assert(w.subrange(47, 49) =~= s.subrange(p + 47, p + 49));
    assert(a11 =~= w.subrange(0, 45));
    assert(a12 =~= w.subrange(0, 47));
    assert(a12.subrange(45, 47) =~= le16(h.item_id));
    assert(w.subrange(45, 47) =~= s.subrange(p + 45, p + 47));
    assert(a10 =~= w.subrange(0, 41));
    assert(a11 =~= w.subrange(0, 45));
    assert(a11.subrange(41, 45) =~= le32(h.tilt_v2));
    assert(w.subrange(41, 45) =~= s.subrange(p + 41, p + 45));
    assert(a9 =~= w.subrange(0, 37));
    assert(a10 =~= w.subrange(0, 41));
    assert(a10.subrange(37, 41) =~= le32(h.yaw2));
    assert(w.subrange(37, 41) =~= s.subrange(p + 37, p + 41));
    assert(a8 =~= w.subrange(0, 33));
    assert(a9 =~= w.subrange(0, 37));
    assert(a9.subrange(33, 37) =~= le32(h.yaw));
    assert(w.subrange(33, 37) =~= s.subrange(p + 33, p + 37));
    assert(a7 =~= w.subrange(0, 29));
    assert(a8 =~= w.subrange(0, 33));
    assert(a8.subrange(29, 33) =~= le32(h.local_offset_z2));
    assert(w.subrange(29, 33) =~= s.subrange(p + 29, p + 33));
    assert(a6 =~= w.subrange(0, 25));
    assert(a7 =~= w.subrange(0, 29));
    assert(a7.subrange(25, 29) =~= le32(h.local_offset_y2));
    assert(w.subrange(25, 29) =~= s.subrange(p + 25, p + 29));
    assert(a5 =~= w.subrange(0, 21));
    assert(a6 =~= w.subrange(0, 25));
    assert(a6.subrange(21, 25) =~= le32(h.local_offset_x2));
    assert(w.subrange(21, 25) =~= s.subrange(p + 21, p + 25));
    assert(a4 =~= w.subrange(0, 17));
    assert(a5 =~= w.subrange(0, 21));
    assert(a5.subrange(17, 21) =~= le32(h.local_offset_z));
    assert(w.subrange(17, 21) =~= s.subrange(p + 17, p + 21));
    assert(a3 =~= w.subrange(0, 13));
    assert(a4 =~= w.subrange(0, 17));
    assert(a4.subrange(13, 17) =~= le32(h.local_offset_y));
    assert(w.subrange(13, 17) =~= s.subrange(p + 13, p + 17));
    assert(a2 =~= w.subrange(0, 9));
    assert(a3 =~= w.subrange(0, 13));
    assert(a3.subrange(9, 13) =~= le32(h.local_offset_x));
    assert(w.subrange(9, 13) =~= s.subrange(p + 9, p + 13));
    assert(a1 =~= w.subrange(0, 8));
    assert(a2 =~= w.subrange(0, 9));
    assert(a2.subrange(8, 9) =~= seq![i8_bits(h.area_index)]);
    assert(w.subrange(8, 9) =~= s.subrange(p + 8, p + 9));
    assert(a0 =~= w.subrange(0, 4));
    assert(a1 =~= w.subrange(0, 8));
    assert(a1.subrange(4, 8) =~= le32(h.index_v2));
    assert(w.subrange(4, 8) =~= s.subrange(p + 4, p + 8));
    assert(a0 =~= s.subrange(p, p + 4));
}

/// The word stored little-endian at `i`.
pub open spec fn word_at(s: Seq<u8>, i: int) -> u32 {
    u32_of(s[i], s[i + 1], s[i + 2], s[i + 3])
}

/// The half-word stored little-endian at `i`.
pub open spec fn half_at(s: Seq<u8>, i: int) -> u16 {
    crate::bytes::u16_of(s[i], s[i + 1])
}

/// The header that the bytes at `p` hold.
pub open spec fn header_at(s: Seq<u8>, p: int) -> BuildingHeader {
    let first_int = first_int_at(s, p);
    let v2 = first_int <= -100;
    let o = if v2 { p + 4 } else { p };
    let t = if v2 { o + 4 } else { o };
    BuildingHeader {
        first_int,
        index_v2: if v2 { word_at(s, p + 4) } else { 0 },
        area_index: i8_from(s[o + 4]),
        local_offset_x: word_at(s, o + 5),
        local_offset_y: word_at(s, o + 9),
        local_offset_z: word_at(s, o + 13),
        local_offset_x2: word_at(s, o + 17),
        local_offset_y2: word_at(s, o + 21),
        local_offset_z2: word_at(s, o + 25),
        yaw: word_at(s, o + 29),
        yaw2: word_at(s, o + 33),
        tilt_v2: if v2 { word_at(s, o + 37) } else { 0 },
        item_id: half_at(s, t + 37),
        model_index: half_at(s, t + 39),
        output_object_index: word_at(s, t + 41),
        input_object_index: word_at(s, t + 45),
        output_to_slot: i8_from(s[t + 49]),
        input_from_slot: i8_from(s[t + 50]),
        output_from_slot: i8_from(s[t + 51]),
        input_to_slot: i8_from(s[t + 52]),
        output_offset: i8_from(s[t + 53]),
        input_offset: i8_from(s[t + 54]),
        recipe_id: half_at(s, t + 55),
        filter_id: half_at(s, t + 57),
        parameter_count: half_at(s, t + 59),
    }
}

proof fn lemma_word_from(s: Seq<u8>, i: int, x: u32)
    requires
        0 <= i,
        i + 4 <= s.len(),
        s.subrange(i, i + 4) == le32(x),
    ensures
        word_at(s, i) == x,
{
    let w = s.subrange(i, i + 4);
    assert(s[i] == w[0] && s[i + 1] == w[1] && s[i + 2] == w[2] && s[i + 3] == w[3]);
    crate::bytes::lemma_u32_of_le32(x);
}

proof fn lemma_half_from(s: Seq<u8>, i: int, x: u16)
    requires
        0 <= i,
        i + 2 <= s.len(),
        s.subrange(i, i + 2) == le16(x),
    ensures
        half_at(s, i) == x,
{
    let w = s.subrange(i, i + 2);
    assert(s[i] == w[0] && s[i + 1] == w[1]);
    crate::bytes::lemma_u16_of_le16(x);
}

/// A header reads back as written: the bytes of a header (in canonical form,
/// with index and tilt zero unless extended) read as that header.
pub proof fn law_header_read_back(s: Seq<u8>, p: int, h: BuildingHeader)
    requires
        0 <= p,
        p + header_len(h.first_int) <= s.len(),
        s.subrange(p, p + header_len(h.first_int)) == enc_header(h),
        !header_is_v2(h) ==> h.index_v2 == 0 && h.tilt_v2 == 0,
    ensures
        header_at(s, p) == h,
        first_int_at(s, p) == h.first_int,
{
    let v2 = h.first_int <= -100;
    if v2 {
        lemma_header_pieces_v2(s, p, h);
    } else {
        lemma_header_pieces_v1(s, p, h);
    }
    lemma_word_from(s, p, i32_bits(h.first_int));
    crate::bytes::lemma_i32_bits_round(h.first_int);
    let o = if v2 { p + 4 } else { p };
    let t = if v2 { o + 4 } else { o };
    if v2 {
        lemma_word_from(s, p + 4, h.index_v2);
        lemma_word_from(s, o + 37, h.tilt_v2);
    }
    lemma_word_from(s, o + 5, h.local_offset_x);
    lemma_word_from(s, o + 9, h.local_offset_y);
    lemma_word_from(s, o + 13, h.local_offset_z);
    lemma_word_from(s, o + 17, h.local_offset_x2);
    lemma_word_from(s, o + 21, h.local_offset_y2);
    lemma_word_from(s, o + 25, h.local_offset_z2);
    lemma_word_from(s, o + 29, h.yaw);
    lemma_word_from(s, o + 33, h.yaw2);
    lemma_half_from(s, t + 37, h.item_id);
    lemma_half_from(s, t + 39, h.model_index);
    lemma_word_from(s, t + 41, h.output_object_index);
    lemma_word_from(s, t + 45, h.input_object_index);
    lemma_half_from(s, t + 55, h.recipe_id);
    lemma_half_from(s, t + 57, h.filter_id);
    lemma_half_from(s, t + 59, h.parameter_count);
    let a = s.subrange(o + 4, o + 5);
    assert(s[o + 4] == a[0]);
    let sl = s.subrange(t + 49, t + 55);
    assert(s[t + 49] == sl[0] && s[t + 50] == sl[1] && s[t + 51] == sl[2] && s[t + 52] == sl[3]
        && s[t + 53] == sl[4] && s[t + 54] == sl[5]);
    crate::bytes::lemma_i8_bits_round(h.area_index);
    crate::bytes::lemma_i8_bits_round(h.output_to_slot);
    crate::bytes::lemma_i8_bits_round(h.input_from_slot);
    crate::bytes::lemma_i8_bits_round(h.output_from_slot);
    crate::bytes::lemma_i8_bits_round(h.input_to_slot);
    crate::bytes::lemma_i8_bits_round(h.output_offset);
    crate::bytes::lemma_i8_bits_round(h.input_offset);
}

/// The area that the bytes at `p` hold.
pub open spec fn area_at(s: Seq<u8>, p: int) -> Area {
    Area {
        index: i8_from(s[p]),
        parent_index: i8_from(s[p + 1]),
        tropic_anchor: i16_from(half_at(s, p + 2)),
        area_segments: i16_from(half_at(s, p + 4)),
        anchor_local_offset_x: i16_from(half_at(s, p + 6)),
        anchor_local_offset_y: i16_from(half_at(s, p + 8)),
        width: i16_from(half_at(s, p + 10)),
        height: i16_from(half_at(s, p + 12)),
    }
}

/// An area reads back as written.
pub proof fn law_area_read_back(s: Seq<u8>, p: int, a: Area)
    requires
        0 <= p,
        p + 14 <= s.len(),
        s.subrange(p, p + 14) == enc_area(a),
    ensures
        area_at(s, p) == a,
{
    let c0 = seq![i8_bits(a.index), i8_bits(a.parent_index)];
    let c1 = c0 + le16(i16_bits(a.tropic_anchor));
    let c2 = c1 + le16(i16_bits(a.area_segments));
    let c3 = c2 + le16(i16_bits(a.anchor_local_offset_x));
    let c4 = c3 + le16(i16_bits(a.anchor_local_offset_y));
    let c5 = c4 + le16(i16_bits(a.width));
    let c6 = c5 + le16(i16_bits(a.height));
    assert(enc_area(a) == c6);
    let w = s.subrange(p, p + 14);
    assert(c6 =~= w);
    assert(c5 =~= w.subrange(0, 12));
    assert(c6.subrange(12, 14) =~= le16(i16_bits(a.height)));
    assert(w.subrange(12, 14) =~= s.subrange(p + 12, p + 14));
    assert(le16(i16_bits(a.height)) == s.subrange(p + 12, p + 14));
    assert(c4 =~= w.subrange(0, 10));
    assert(c5.subrange(10, 12) =~= le16(i16_bits(a.width)));
    assert(w.subrange(10, 12) =~= s.subrange(p + 10, p + 12));
    assert(le16(i16_bits(a.width)) == s.subrange(p + 10, p + 12));
    assert(c3 =~= w.subrange(0, 8));
    assert(c4.subrange(8, 10) =~= le16(i16_bits(a.anchor_local_offset_y)));
    assert(w.subrange(8, 10) =~= s.subrange(p + 8, p + 10));
    assert(le16(i16_bits(a.anchor_local_offset_y)) == s.subrange(p + 8, p + 10));
    assert(c2 =~= w.subrange(0, 6));
    assert(c3.subrange(6, 8) =~= le16(i16_bits(a.anchor_local_offset_x)));
    assert(w.subrange(6, 8) =~= s.subrange(p + 6, p + 8));
    assert(le16(i16_bits(a.anchor_local_offset_x)) == s.subrange(p + 6, p + 8));
    assert(c1 =~= w.subrange(0, 4));
    assert(c2.subrange(4, 6) =~= le16(i16_bits(a.area_segments)));
    assert(w.subrange(4, 6) =~= s.subrange(p + 4, p + 6));
    assert(le16(i16_bits(a.area_segments)) == s.subrange(p + 4, p + 6));
    assert(c0 =~= w.subrange(0, 2));
    assert(c1.subrange(2, 4) =~= le16(i16_bits(a.tropic_anchor)));
    assert(w.subrange(2, 4) =~= s.subrange(p + 2, p + 4));
    assert(le16(i16_bits(a.tropic_anchor)) == s.subrange(p + 2, p + 4));
    assert(s[p] == w[0] && s[p + 1] == w[1]);
    assert(c0[0] == i8_bits(a.index) && c0[1] == i8_bits(a.parent_index));
    lemma_half_from(s, p + 2, i16_bits(a.tropic_anchor));
    lemma_half_from(s, p + 4, i16_bits(a.area_segments));
    lemma_half_from(s, p + 6, i16_bits(a.anchor_local_offset_x));
    lemma_half_from(s, p + 8, i16_bits(a.anchor_local_offset_y));
    lemma_half_from(s, p + 10, i16_bits(a.width));
    lemma_half_from(s, p + 12, i16_bits(a.height));
    crate::bytes::lemma_i8_bits_round(a.index);
    crate::bytes::lemma_i8_bits_round(a.parent_index);
    crate::bytes::lemma_i16_bits_round(a.tropic_anchor);
    crate::bytes::lemma_i16_bits_round(a.area_segments);
    crate::bytes::lemma_i16_bits_round(a.anchor_local_offset_x);
    crate::bytes::lemma_i16_bits_round(a.anchor_local_offset_y);
    crate::bytes::lemma_i16_bits_round(a.width);
    crate::bytes::lemma_i16_bits_round(a.height);
}

/// Station storage entries read from the words `ws`.
pub open spec fn storages_of(ws: Seq<u32>, n: nat) -> Seq<StationStorage>
    decreases n,
{
    if n == 0 {
        seq![]
    } else {
        let i = 6 * (n - 1);
        storages_of(ws, (n - 1) as nat).push(
            StationStorage {
                item_id: ws[i],
                local_logic: ws[i + 1],
                remote_logic: ws[i + 2],
                max_count: ws[i + 3],
                reserved0: ws[i + 4],
                reserved1: ws[i + 5],
            },
        )
    }
}

/// The parameter block that a building of `item` reads from the words `ws`.
pub open spec fn param_of(item: u16, ws: Seq<u32>) -> ParamModel {
    let n = storage_count(item);
    if is_station(item) && ws.len() >= 6 * n {
        ParamModel::Station {
            interstellar: is_interstellar_station(item),
            storage: storages_of(ws, n),
            tail: ws.subrange(6 * n as int, ws.len() as int),
        }
    } else if is_belt(item) {
        if ws.len() == 0 {
            ParamModel::Belt(None)
        } else {
            ParamModel::Belt(Some(ws))
        }
    } else {
        ParamModel::Unknown(ws)
    }
}

pub proof fn lemma_storages_words_len(st: Seq<StationStorage>)
    ensures
        storages_words(st).len() == 6 * st.len(),
    decreases st.len(),
{
    if st.len() > 0 {
        lemma_storages_words_len(st.drop_last());
    }
}

/// Reading storage entries back from their words gives them again.
pub proof fn lemma_storages_of_words(st: Seq<StationStorage>, t: Seq<u32>)
    ensures
        storages_of(storages_words(st) + t, st.len()) == st,
    decreases st.len(),
{
    if st.len() > 0 {
        let st0 = st.drop_last();
        let last = st.last();
        lemma_storages_words_len(st0);
        assert(storages_words(st) + t =~= storages_words(st0) + (storage_words(last) + t));
        lemma_storages_of_words(st0, storage_words(last) + t);
        let ws = storages_words(st) + t;
        let i = 6 * (st.len() - 1);
        assert(ws[i] == last.item_id && ws[i + 1] == last.local_logic && ws[i + 2] == last.remote_logic
            && ws[i + 3] == last.max_count && ws[i + 4] == last.reserved0 && ws[i + 5] == last.reserved1);
        assert(st0.push(last) =~= st);
    }
}

/// A fitting parameter block is what its words read back as.
pub proof fn lemma_param_of_words(item: u16, pm: ParamModel)
    requires
        param_fits(item, pm),
    ensures
        param_of(item, param_words(pm)) == pm,
{
    match pm {
        ParamModel::Station { interstellar, storage, tail } => {
            lemma_storages_words_len(storage);
            lemma_storages_of_words(storage, tail);
            let ws = param_words(pm);
            assert(ws.subrange(6 * storage.len() as int, ws.len() as int) =~= tail);
        },
        _ => {},
    }
}

/// A parameter block reads back as written: words with the bytes of a
/// fitting block read as that block.
pub proof fn law_param_read_back(item: u16, pm: ParamModel, ws: Seq<u32>)
    requires
        param_fits(item, pm),
        ws.len() == param_words(pm).len(),
        words_bytes(ws) == words_bytes(param_words(pm)),
    ensures
        param_of(item, ws) == pm,
{
    lemma_words_bytes_inj(ws, param_words(pm));
    lemma_param_of_words(item, pm);
}

/// Words are fixed by their bytes.
pub proof fn lemma_words_bytes_inj(a: Seq<u32>, b: Seq<u32>)
    requires
        a.len() == b.len(),
        words_bytes(a) == words_bytes(b),
    ensures
        a == b,
    decreases a.len(),
{
    if a.len() > 0 {
        lemma_words_bytes_len(a.drop_last());
        lemma_words_bytes_len(b.drop_last());
        let wa = words_bytes(a);
        let n = words_bytes(a.drop_last()).len() as int;
        assert(wa.subrange(0, n) =~= words_bytes(a.drop_last()));
        assert(words_bytes(b).subrange(0, n) =~= words_bytes(b.drop_last()));
        lemma_words_bytes_inj(a.drop_last(), b.drop_last());
        assert(wa.subrange(n, n + 4) =~= le32(a.last()));
        assert(words_bytes(b).subrange(n, n + 4) =~= le32(b.last()));
        crate::bytes::lemma_u32_of_le32(a.last());
        crate::bytes::lemma_u32_of_le32(b.last());
        assert(a =~= a.drop_last().push(a.last()));
        assert(b =~= b.drop_last().push(b.last()));
    }
}

/// The canonical header `h` is written at `p`.
pub open spec fn header_written_at(s: Seq<u8>, p: int, h: BuildingHeader) -> bool {
    &&& 0 <= p
    &&& p + header_len(h.first_int) <= s.len()
    &&& s.subrange(p, p + header_len(h.first_int)) == enc_header(h)
    &&& (!header_is_v2(h) ==> h.index_v2 == 0 && h.tilt_v2 == 0)
}

pub open spec fn r_is_header(r: Result<(BuildingHeader, usize), BlueprintError>, h: BuildingHeader, pos: usize) -> bool {
    r matches Ok((x, e)) && x == h && e == pos + header_len(h.first_int)
}

/// Reads a building header at `pos`.
#[verifier::rlimit(80)]
pub fn decode_header(b: &[u8], pos: usize) -> (r: Result<(BuildingHeader, usize), BlueprintError>)
    requires
        pos <= b@.len(),
    ensures
        (r is Ok) <==> header_fits(b@, pos as int),
        r matches Err(e) ==> e == (BlueprintError::Truncated { at: pos }),
        r matches Ok((h, e)) ==> ({
            &&& e == pos + header_len(h.first_int)
            &&& e <= b@.len()
            &&& h.first_int == first_int_at(b@, pos as int)
            &&& h == header_at(b@, pos as int)
            &&& enc_header(h) == b@.subrange(pos as int, e as int)
            &&& (!header_is_v2(h) ==> h.index_v2 == 0 && h.tilt_v2 == 0)
        }),
        forall|h: BuildingHeader|
            header_written_at(b@, pos as int, h) ==> #[trigger] r_is_header(r, h, pos),
{
    proof {
        assert forall|h: BuildingHeader| header_written_at(b@, pos as int, h) implies first_int_at(
            b@,
            pos as int,
        ) == h.first_int && header_at(b@, pos as int) == h by {
            law_header_read_back(b@, pos as int, h);
        }
    }
    let len = b.len();
    if len < 4 || pos > len - 4 {
        return Err(BlueprintError::Truncated { at: pos });
    }
    let first_bits = u32_at(b, pos);
    let first_int = i32_from_bits(first_bits);
    let v2 = first_int <= -100;
    let size: usize = if v2 { 69 } else { 61 };
    if len < size || pos > len - size {
        return Err(BlueprintError::Truncated { at: pos });
    }
    let o: usize = if v2 { pos + 4 } else { pos };
    let t: usize = if v2 { o + 4 } else { o };
    let index_v2 = if v2 { u32_at(b, pos + 4) } else { 0 };
    let tilt_v2 = if v2 { u32_at(b, o + 37) } else { 0 };
    let h = BuildingHeader {
        first_int,
        index_v2,
        area_index: i8_from_bits(b[o + 4]),
        local_offset_x: u32_at(b, o + 5),
        local_offset_y: u32_at(b, o + 9),
        local_offset_z: u32_at(b, o + 13),
        local_offset_x2: u32_at(b, o + 17),
        local_offset_y2: u32_at(b, o + 21),
        local_offset_z2: u32_at(b, o + 25),
        yaw: u32_at(b, o + 29),
        yaw2: u32_at(b, o + 33),
        tilt_v2,
        item_id: u16_at(b, t + 37),
        model_index: u16_at(b, t + 39),
        output_object_index: u32_at(b, t + 41),
        input_object_index: u32_at(b, t + 45),
        output_to_slot: i8_from_bits(b[t + 49]),
        input_from_slot: i8_from_bits(b[t + 50]),
        output_from_slot: i8_from_bits(b[t + 51]),
        input_to_slot: i8_from_bits(b[t + 52]),
        output_offset: i8_from_bits(b[t + 53]),
        input_offset: i8_from_bits(b[t + 54]),
        recipe_id: u16_at(b, t + 55),
        filter_id: u16_at(b, t + 57),
        parameter_count: u16_at(b, t + 59),
    };
    proof {
        lemma_i32_from_round(first_bits);
        lemma_i8_from_round(b@[o + 4]);
        lemma_i8_from_round(b@[t + 49]);
        lemma_i8_from_round(b@[t + 50]);
        lemma_i8_from_round(b@[t + 51]);
        lemma_i8_from_round(b@[t + 52]);
        lemma_i8_from_round(b@[t + 53]);
        lemma_i8_from_round(b@[t + 54]);
        assert(seq![i8_bits(h.area_index)] =~= b@.subrange(o + 4, o + 5));
        assert(seq![
            i8_bits(h.output_to_slot),
            i8_bits(h.input_from_slot),
            i8_bits(h.output_from_slot),
            i8_bits(h.input_to_slot),
            i8_bits(h.output_offset),
            i8_bits(h.input_offset),
        ] =~= b@.subrange(t + 49, t + 55));
        if v2 {
            lemma_header_window_v2(b@, pos as int, h);
        } else {
            lemma_header_window_v1(b@, pos as int, h);
        }
    }
    Ok((h, pos + size))
}

/// Builds storage entries from their words.
fn storage_from_words(ws: &Vec<u32>, n: usize) -> (r: Vec<StationStorage>)
    requires
        6 * n <= ws@.len(),
    ensures
        r@.len() == n,
        storages_words(r@) == ws@.subrange(0, 6 * n),
        r@ == storages_of(ws@, n as nat),
{
    let len = ws.len();
    let mut r: Vec<StationStorage> = Vec::new();
    let mut k: usize = 0;
    while k < n
        invariant
            k <= n,
            len == ws@.len(),
            6 * n <= ws@.len(),
            r@.len() == k,
            storages_words(r@) == ws@.subrange(0, 6 * k),
            r@ == storages_of(ws@, k as nat),
        decreases n - k,
    {
        let i = 6 * k;
        let e = StationStorage {
            item_id: ws[i],
            local_logic: ws[i + 1],
            remote_logic: ws[i + 2],
            max_count: ws[i + 3],
            reserved0: ws[i + 4],
            reserved1: ws[i + 5],
        };
        let ghost prev = r@;
        r.push(e);
        proof {
            assert(r@.drop_last() =~= prev);
            assert(ws@.subrange(0, 6 * (k + 1)) =~= ws@.subrange(0, 6 * k) + storage_words(e));
            assert(r@ =~= storages_of(ws@, (k + 1) as nat));
        }
        k += 1;
    }
    r
}

/// The block `pm`, fitting `item` and `count`, is written at `p`.
pub open spec fn param_written_at(s: Seq<u8>, p: int, item: u16, count: u16, pm: ParamModel) -> bool {
    &&& 0 <= p
    &&& param_fits(item, pm)
    &&& param_words(pm).len() == count
    &&& p + 4 * count <= s.len()
    &&& s.subrange(p, p + 4 * count) == words_bytes(param_words(pm))
}

pub open spec fn r_is_param(r: Result<(BuildingParam, usize), BlueprintError>, pm: ParamModel, pos: usize, count: u16) -> bool {
    r matches Ok((x, e)) && x@ == pm && e == pos + 4 * count
}

/// Reads the `count` parameter words of a building of `item` at `pos`.
pub fn decode_param(b: &[u8], pos: usize, item: u16, count: u16) -> (r: Result<
    (BuildingParam, usize),
    BlueprintError,
>)
    requires
        pos <= b@.len(),
    ensures
        r matches Err(e) ==> e is Truncated,
        (r is Ok) <==> pos + 4 * count <= b@.len(),
        r matches Err(e) ==> e == (BlueprintError::Truncated { at: pos }),
        r matches Ok((p, e)) ==> ({
            &&& e == pos + 4 * count
            &&& param_words(p@).len() == count
            &&& param_fits(item, p@)
            &&& words_bytes(param_words(p@)) == b@.subrange(pos as int, e as int)
            &&& p@ == param_of(item, param_words(p@))
        }),
        forall|pm: ParamModel|
            param_written_at(b@, pos as int, item, count, pm) ==> #[trigger] r_is_param(r, pm, pos, count),
{
    let len = b.len();
    let n = count as usize;
    if n > (len - pos) / 4 {
        return Err(BlueprintError::Truncated { at: pos });
    }
    let ws = words_at(b, pos, n);
    let end = pos + 4 * n;
    let ghost wsv = ws@;
    let p = if item_is_station(item) && n >= 6 * station_storage_count(item) {
        let k = station_storage_count(item);
        let storage = storage_from_words(&ws, k);
        let mut tail: Vec<u32> = Vec::new();
        let mut i: usize = 6 * k;
        while i < n
            invariant
                6 * k <= i <= n,
                n == ws@.len(),
                tail@ == ws@.subrange(6 * k as int, i as int),
            decreases n - i,
        {
            tail.push(ws[i]);
            assert(tail@ =~= ws@.subrange(6 * k as int, i + 1));
            i += 1;
        }
        assert(storages_words(storage@) + tail@ =~= ws@);
        assert(tail@ =~= ws@.subrange(6 * k as int, ws@.len() as int));
        BuildingParam::Station(
            Station { interstellar: item_is_interstellar_station(item), storage, tail },
        )
    } else if item_is_belt(item) {
        if n == 0 {
            BuildingParam::Belt(None)
        } else {
            BuildingParam::Belt(Some(Belt { words: ws }))
        }
    } else {
        BuildingParam::Unknown(ws)
    };
    proof {
        assert forall|pm: ParamModel| param_written_at(b@, pos as int, item, count, pm) implies #[trigger] r_is_param(
            Ok::<(BuildingParam, usize), BlueprintError>((p, end)),
            pm,
            pos,
            count,
        ) by {
            law_param_read_back(item, pm, param_words(p@));
        }
    }
    Ok((p, end))
}

/// The well-formed building `bm` is written at `p`.
pub open spec fn building_written_at(s: Seq<u8>, p: int, bm: BuildingModel) -> bool {
    &&& 0 <= p
    &&& building_wf(bm)
    &&& p + enc_building(bm).len() <= s.len()
    &&& s.subrange(p, p + enc_building(bm).len()) == enc_building(bm)
}

pub open spec fn r_is_building(r: Result<(Building, usize), BlueprintError>, bm: BuildingModel, pos: usize) -> bool {
    r matches Ok((x, e)) && x@ == bm && e == pos + enc_building(bm).len()
}

pub proof fn lemma_building_parts(s: Seq<u8>, p: int, bm: BuildingModel)
    requires
        building_written_at(s, p, bm),
    ensures
        header_written_at(s, p, bm.header),
        param_written_at(
            s,
            p + header_len(bm.header.first_int),
            bm.header.item_id,
            bm.header.parameter_count,
            bm.param,
        ),
        enc_building(bm).len() == header_len(bm.header.first_int) + 4 * bm.header.parameter_count,
{
    crate::laws::law_header_layout(bm.header);
    let pw = param_words(bm.param);
    lemma_words_bytes_len(pw);
    let hl = header_len(bm.header.first_int) as int;
    let w = s.subrange(p, p + enc_building(bm).len());
    assert(w.subrange(0, hl) =~= s.subrange(p, p + hl));
    assert(enc_building(bm).subrange(0, hl) =~= enc_header(bm.header));
    assert(w.subrange(hl, w.len() as int) =~= s.subrange(p + hl, p + hl + 4 * bm.header.parameter_count));
    assert(enc_building(bm).subrange(hl, w.len() as int) =~= words_bytes(pw));
}

/// Reads a building record at `pos`.
pub fn decode_building(b: &[u8], pos: usize) -> (r: Result<(Building, usize), BlueprintError>)
    requires
        pos <= b@.len(),
    ensures
        r matches Err(e) ==> e is Truncated,
        r matches Ok((x, e)) ==> ({
            &&& pos <= e <= b@.len()
            &&& building_wf(x@)
            &&& enc_building(x@) == b@.subrange(pos as int, e as int)
        }),
        forall|bm: BuildingModel|
            building_written_at(b@, pos as int, bm) ==> #[trigger] r_is_building(r, bm, pos),
{
    let (header, mid) = match decode_header(b, pos) {
        Ok(x) => x,
        Err(e) => {
            proof {
                assert forall|bm: BuildingModel| !building_written_at(b@, pos as int, bm) by {
                    if building_written_at(b@, pos as int, bm) {
                        lemma_building_parts(b@, pos as int, bm);
                        assert(r_is_header(
                            Err::<(BuildingHeader, usize), BlueprintError>(e),
                            bm.header,
                            pos,
                        ));
                    }
                }
            }
            return Err(e);
        },
    };
    let (param, end) = match decode_param(b, mid, header.item_id, header.parameter_count) {
        Ok(x) => x,
        Err(e) => {
            proof {
                assert forall|bm: BuildingModel| !building_written_at(b@, pos as int, bm) by {
                    if building_written_at(b@, pos as int, bm) {
                        lemma_building_parts(b@, pos as int, bm);
                        assert(r_is_header(
                            Ok::<(BuildingHeader, usize), BlueprintError>((header, mid)),
                            bm.header,
                            pos,
                        ));
                        assert(r_is_param(
                            Err::<(BuildingParam, usize), BlueprintError>(e),
                            bm.param,
                            mid,
                            header.parameter_count,
                        ));
                    }
                }
            }
            return Err(e);
        },
    };
    let x = Building { header, param };
    assert(enc_building(x@) =~= b@.subrange(pos as int, end as int));
    proof {
        assert forall|bm: BuildingModel| building_written_at(b@, pos as int, bm) implies #[trigger] r_is_building(
            Ok::<(Building, usize), BlueprintError>((x, end)),
            bm,
            pos,
        ) by {
            lemma_building_parts(b@, pos as int, bm);
            assert(r_is_header(
                Ok::<(BuildingHeader, usize), BlueprintError>((header, mid)),
                bm.header,
                pos,
            ));
            assert(r_is_param(
                Ok::<(BuildingParam, usize), BlueprintError>((param, end)),
                bm.param,
                mid,
                header.parameter_count,
            ));
        }
    }
    Ok((x, end))
}

/// Reads an area record at `pos`.
pub fn decode_area(b: &[u8], pos: usize) -> (r: Result<(Area, usize), BlueprintError>)
    requires
        pos <= b@.len(),
    ensures
        (r is Ok) <==> pos + 14 <= b@.len(),
        r matches Err(e) ==> e == (BlueprintError::Truncated { at: pos }),
        r matches Ok((a, e)) ==> e == pos + 14 && enc_area(a) == b@.subrange(pos as int, e as int)
            && a == area_at(b@, pos as int),
{
    let len = b.len();
    if len < 14 || pos > len - 14 {
        return Err(BlueprintError::Truncated { at: pos });
    }
    let a = Area {
        index: i8_from_bits(b[pos]),
        parent_index: i8_from_bits(b[pos + 1]),
        tropic_anchor: i16_from_bits(u16_at(b, pos + 2)),
        area_segments: i16_from_bits(u16_at(b, pos + 4)),
        anchor_local_offset_x: i16_from_bits(u16_at(b, pos + 6)),
        anchor_local_offset_y: i16_from_bits(u16_at(b, pos + 8)),
        width: i16_from_bits(u16_at(b, pos + 10)),
        height: i16_from_bits(u16_at(b, pos + 12)),
    };
    proof {
        lemma_i8_from_round(b@[pos as int]);
        lemma_i8_from_round(b@[pos + 1]);
        lemma_i16_from_round(crate::bytes::u16_of(b@[pos + 2], b@[pos + 3]));
        lemma_i16_from_round(crate::bytes::u16_of(b@[pos + 4], b@[pos + 5]));
        lemma_i16_from_round(crate::bytes::u16_of(b@[pos + 6], b@[pos + 7]));
        lemma_i16_from_round(crate::bytes::u16_of(b@[pos + 8], b@[pos + 9]));
        lemma_i16_from_round(crate::bytes::u16_of(b@[pos + 10], b@[pos + 11]));
        lemma_i16_from_round(crate::bytes::u16_of(b@[pos + 12], b@[pos + 13]));
        assert(enc_area(a) =~= b@.subrange(pos as int, pos + 14));
    }
    Ok((a, pos + 14))
}

pub proof fn lemma_enc_areas_at(sq: Seq<Area>, i: int)
    requires
        0 <= i < sq.len(),
    ensures
        enc_areas(sq).len() == 14 * sq.len(),
        enc_areas(sq).subrange(14 * i, 14 * i + 14) == enc_area(sq[i]),
    decreases sq.len(),
{
    lemma_enc_areas_len(sq);
    let s0 = sq.drop_last();
    lemma_enc_areas_len(s0);
    if i < sq.len() - 1 {
        lemma_enc_areas_at(s0, i);
        assert(enc_areas(sq).subrange(14 * i, 14 * i + 14) =~= enc_areas(s0).subrange(14 * i, 14 * i + 14));
    } else {
        assert(enc_areas(sq).subrange(14 * i, 14 * i + 14) =~= enc_area(sq.last()));
    }
}

pub proof fn lemma_enc_areas_len(sq: Seq<Area>)
    ensures
        enc_areas(sq).len() == 14 * sq.len(),
    decreases sq.len(),
{
    if sq.len() > 0 {
        lemma_enc_areas_len(sq.drop_last());
    }
}

/// The `count` areas `sq` are written at `p`.
pub open spec fn areas_written_at(s: Seq<u8>, p: int, count: nat, sq: Seq<Area>) -> bool {
    &&& 0 <= p
    &&& sq.len() == count
    &&& p + 14 * count <= s.len()
    &&& s.subrange(p, p + 14 * count) == enc_areas(sq)
}

/// Reads `count` area records from `pos`.
fn decode_areas(b: &[u8], pos: usize, count: u8) -> (r: Result<(Vec<Area>, usize), BlueprintError>)
    requires
        pos <= b@.len(),
    ensures
        r matches Err(e) ==> e is Truncated,
        r matches Ok((v, e)) ==> ({
            &&& pos <= e <= b@.len()
            &&& v@.len() == count
            &&& enc_areas(v@) == b@.subrange(pos as int, e as int)
        }),
        forall|sq: Seq<Area>|
            #[trigger] areas_written_at(b@, pos as int, count as nat, sq) ==> (r matches Ok((v, e))
                && v@ == sq),
{
    let len = b.len();
    let mut at = pos;
    let mut areas: Vec<Area> = Vec::new();
    let mut i: u8 = 0;
    while i < count
        invariant
            pos <= at <= len,
            len == b@.len(),
            i <= count,
            areas@.len() == i,
            enc_areas(areas@) == b@.subrange(pos as int, at as int),
            forall|sq: Seq<Area>|
                #[trigger] areas_written_at(b@, pos as int, count as nat, sq) ==> areas@ == sq.subrange(0, i as int)
                    && at == pos + 14 * i,
        decreases count - i,
    {
        let (a, next) = match decode_area(b, at) {
            Ok(x) => x,
            Err(e) => {
                proof {
                    assert forall|sq: Seq<Area>| !areas_written_at(b@, pos as int, count as nat, sq) by {
                        if areas_written_at(b@, pos as int, count as nat, sq) {
                            assert(at + 14 <= pos + 14 * count);
                        }
                    }
                }
                return Err(e);
            },
        };
        let ghost prev = areas@;
        areas.push(a);
        proof {
            assert(areas@.drop_last() =~= prev);
            assert(b@.subrange(pos as int, next as int) =~= b@.subrange(pos as int, at as int)
                + b@.subrange(at as int, next as int));
            assert forall|sq: Seq<Area>| #[trigger] areas_written_at(b@, pos as int, count as nat, sq) implies areas@
                == sq.subrange(0, i + 1) && next == pos + 14 * (i + 1) by {
                lemma_enc_areas_at(sq, i as int);
                assert(b@.subrange(at as int, at + 14) =~= enc_areas(sq).subrange(14 * i, 14 * i + 14));
                law_area_read_back(b@, at as int, sq[i as int]);
                assert(areas@ =~= sq.subrange(0, i + 1));
            }
        }
        at = next;
        i += 1;
    }
    proof {
        assert forall|sq: Seq<Area>| #[trigger] areas_written_at(b@, pos as int, count as nat, sq) implies areas@ == sq by {
            assert(sq.subrange(0, count as int) =~= sq);
        }
    }
    Ok((areas, at))
}

/// The prefix of a building list is written first.
pub proof fn lemma_enc_buildings_prefix(sq: Seq<BuildingModel>, j: int)
    requires
        0 <= j <= sq.len(),
    ensures
        enc_buildings(sq.subrange(0, j)).len() <= enc_buildings(sq).len(),
        enc_buildings(sq).subrange(0, enc_buildings(sq.subrange(0, j)).len() as int) == enc_buildings(
            sq.subrange(0, j),
        ),
    decreases sq.len(),
{
    if j == sq.len() {
        assert(sq.subrange(0, j) =~= sq);
        assert(enc_buildings(sq).subrange(0, enc_buildings(sq).len() as int) =~= enc_buildings(sq));
    } else {
        let s0 = sq.drop_last();
        assert(sq.subrange(0, j) =~= s0.subrange(0, j));
        lemma_enc_buildings_prefix(s0, j);
        let l = enc_buildings(sq.subrange(0, j)).len() as int;
        assert(enc_buildings(sq).subrange(0, l) =~= enc_buildings(s0).subrange(0, l));
    }
}

/// The `count` well-formed buildings `sq` are written at `p`.
pub open spec fn buildings_written_at(s: Seq<u8>, p: int, count: nat, sq: Seq<BuildingModel>) -> bool {
    &&& 0 <= p
    &&& sq.len() == count
    &&& forall|k: int| 0 <= k < sq.len() ==> building_wf(#[trigger] sq[k])
    &&& p + enc_buildings(sq).len() <= s.len()
    &&& s.subrange(p, p + enc_buildings(sq).len()) == enc_buildings(sq)
}

proof fn lemma_next_building_written(
    s: Seq<u8>,
    pos: int,
    at: int,
    count: nat,
    sq: Seq<BuildingModel>,
    j: int,
)
    requires
        buildings_written_at(s, pos, count, sq),
        0 <= j < count,
        pos <= at <= s.len(),
        enc_buildings(sq.subrange(0, j)) == s.subrange(pos, at),
    ensures
        building_written_at(s, at, sq[j]),
{
    lemma_enc_buildings_prefix(sq, j + 1);
    let pj = sq.subrange(0, j);
    let pj1 = sq.subrange(0, j + 1);
    assert(pj1.drop_last() =~= pj);
    let x = sq[j];
    assert(pj1.last() == x);
    let e_all = enc_buildings(sq);
    let e_j = enc_buildings(pj);
    let e_j1 = enc_buildings(pj1);
    let eb = enc_building(x);
    assert(e_j1 == e_j + eb);
    let lj = e_j.len() as int;
    let lj1 = e_j1.len() as int;
    assert(lj == at - pos);
    assert(lj1 == lj + eb.len());
    let w = s.subrange(pos, pos + e_all.len());
    assert(w == e_all);
    assert(w.subrange(0, lj1) == e_j1);
    assert(s.subrange(at, at + eb.len()) =~= w.subrange(0, lj1).subrange(lj, lj1));
    assert(e_j1.subrange(lj, lj1) =~= eb);
}

/// Reads `count` building records from `pos`.
#[verifier::rlimit(60)]
fn decode_buildings(b: &[u8], pos: usize, count: usize) -> (r: Result<
    (Vec<Building>, usize),
    BlueprintError,
>)
    requires
        pos <= b@.len(),
    ensures
        r matches Err(e) ==> e is Truncated,
        r matches Ok((v, e)) ==> ({
            &&& pos <= e <= b@.len()
            &&& v@.len() == count
            &&& enc_buildings(v@.map_values(|x: Building| x@)) == b@.subrange(pos as int, e as int)
            &&& forall|k: int| 0 <= k < count ==> building_wf(#[trigger] v@[k]@)
        }),
        forall|sq: Seq<BuildingModel>|
            #[trigger] buildings_written_at(b@, pos as int, count as nat, sq) ==> (r matches Ok((v, e))
                && v@.map_values(|x: Building| x@) == sq),
{
    let len = b.len();
    let mut at = pos;
    let mut buildings: Vec<Building> = Vec::new();
    let mut j: usize = 0;
    while j < count
        invariant
            pos <= at <= len,
            len == b@.len(),
            j <= count,
            buildings@.len() == j,
            enc_buildings(buildings@.map_values(|x: Building| x@)) == b@.subrange(
                pos as int,
                at as int,
            ),
            forall|k: int| 0 <= k < j ==> building_wf(#[trigger] buildings@[k]@),
            forall|sq: Seq<BuildingModel>|
                #[trigger] buildings_written_at(b@, pos as int, count as nat, sq) ==> buildings@.map_values(
                    |x: Building| x@,
                ) == sq.subrange(0, j as int),
        decreases count - j,
    {
        let ghost prev = buildings@.map_values(|x: Building| x@);
        proof {
            assert forall|sq: Seq<BuildingModel>| #[trigger] buildings_written_at(b@, pos as int, count as nat, sq) implies
                building_written_at(b@, at as int, sq[j as int]) by {
                lemma_next_building_written(b@, pos as int, at as int, count as nat, sq, j as int);
            }
        }
        let (x, next) = match decode_building(b, at) {
            Ok(x) => x,
            Err(e) => {
                proof {
                    assert forall|sq: Seq<BuildingModel>| !buildings_written_at(b@, pos as int, count as nat, sq) by {
                        if buildings_written_at(b@, pos as int, count as nat, sq) {
                            assert(building_written_at(b@, at as int, sq[j as int]));
                            assert(r_is_building(
                                Err::<(Building, usize), BlueprintError>(e),
                                sq[j as int],
                                at,
                            ));
                        }
                    }
                }
                return Err(e);
            },
        };
        buildings.push(x);
        proof {
            let now = buildings@.map_values(|x: Building| x@);
            assert(now.drop_last() =~= prev);
            assert(now.last() == x@);
            assert(b@.subrange(pos as int, next as int) =~= b@.subrange(pos as int, at as int)
                + b@.subrange(at as int, next as int));
            assert forall|sq: Seq<BuildingModel>| #[trigger] buildings_written_at(b@, pos as int, count as nat, sq) implies now
                == sq.subrange(0, j + 1) by {
                assert(building_written_at(b@, at as int, sq[j as int]));
                assert(r_is_building(
                    Ok::<(Building, usize), BlueprintError>((x, next)),
                    sq[j as int],
                    at,
                ));
                assert(now =~= sq.subrange(0, j + 1));
            }
        }
        at = next;
        j += 1;
    }
    proof {
        assert forall|sq: Seq<BuildingModel>| #[trigger] buildings_written_at(b@, pos as int, count as nat, sq) implies buildings@.map_values(
            |x: Building| x@,
        ) == sq by {
            assert(sq.subrange(0, count as int) =~= sq);
        }
    }
    Ok((buildings, at))
}

/// A well-formed payload `m` is written at the start of `s`.
pub open spec fn payload_written(s: Seq<u8>, m: DataModel) -> bool {
    data_wf(m) && enc_data(m).len() <= s.len() && enc_data(m) == s.subrange(0, enc_data(m).len() as int)
}

proof fn lemma_data_pieces(s: Seq<u8>, m: DataModel, la: int, lb: int)
    requires
        payload_written(s, m),
        la == enc_areas(m.areas).len(),
        lb == enc_buildings(m.buildings).len(),
    ensures
        enc_data(m).len() == 33 + la + lb,
        enc_buildings(m.buildings) == s.subrange(33 + la, 33 + la + lb),
        le32(m.buildings.len() as u32) == s.subrange(29 + la, 33 + la),
        enc_areas(m.areas) == s.subrange(29, 29 + la),
        seq![m.areas.len() as u8] == s.subrange(28, 29),
        le32(i32_bits(m.primary_area_idx)) == s.subrange(24, 28),
        le32(i32_bits(m.drag_box_size_y)) == s.subrange(20, 24),
        le32(i32_bits(m.drag_box_size_x)) == s.subrange(16, 20),
        le32(i32_bits(m.cursor_target_area)) == s.subrange(12, 16),
        le32(i32_bits(m.cursor_offset_y)) == s.subrange(8, 12),
        le32(i32_bits(m.cursor_offset_x)) == s.subrange(4, 8),
        le32(i32_bits(m.version)) == s.subrange(0, 4),
{
    let a0 = le32(i32_bits(m.version));
    let a1 = a0 + le32(i32_bits(m.cursor_offset_x));
    let a2 = a1 + le32(i32_bits(m.cursor_offset_y));
    let a3 = a2 + le32(i32_bits(m.cursor_target_area));
    let a4 = a3 + le32(i32_bits(m.drag_box_size_x));
    let a5 = a4 + le32(i32_bits(m.drag_box_size_y));
    let a6 = a5 + le32(i32_bits(m.primary_area_idx));
    let a7 = a6 + seq![m.areas.len() as u8];
    let a8 = a7 + enc_areas(m.areas);
    let a9 = a8 + le32(m.buildings.len() as u32);
    let a10 = a9 + enc_buildings(m.buildings);
    assert(enc_data(m) =~= a10);
    let w = s.subrange(0, 33 + la + lb);
    assert(a10 =~= w);
    assert(a10 =~= w.subrange(0, 33 + la + lb));
    assert(a9 =~= w.subrange(0, 33 + la));
    assert(a10.subrange(33 + la, 33 + la + lb) =~= enc_buildings(m.buildings));
    assert(w.subrange(33 + la, 33 + la + lb) =~= s.subrange(33 + la, 33 + la + lb));
    assert(a9 =~= w.subrange(0, 33 + la));
    assert(a8 =~= w.subrange(0, 29 + la));
    assert(a9.subrange(29 + la, 33 + la) =~= le32(m.buildings.len() as u32));
    assert(w.subrange(29 + la, 33 + la) =~= s.subrange(29 + la, 33 + la));
    assert(a8 =~= w.subrange(0, 29 + la));
    assert(a7 =~= w.subrange(0, 29));
    assert(a8.subrange(29, 29 + la) =~= enc_areas(m.areas));
    assert(w.subrange(29, 29 + la) =~= s.subrange(29, 29 + la));
    assert(a7 =~= w.subrange(0, 29));
    assert(a6 =~= w.subrange(0, 28));
    assert(a7.subrange(28, 29) =~= seq![m.areas.len() as u8]);
    assert(w.subrange(28, 29) =~= s.subrange(28, 29));
    assert(a6 =~= w.subrange(0, 28));
    assert(a5 =~= w.subrange(0, 24));
    assert(a6.subrange(24, 28) =~= le32(i32_bits(m.primary_area_idx)));
    assert(w.subrange(24, 28) =~= s.subrange(24, 28));
    assert(a5 =~= w.subrange(0, 24));
    assert(a4 =~= w.subrange(0, 20));
    assert(a5.subrange(20, 24) =~= le32(i32_bits(m.drag_box_size_y)));
    assert(w.subrange(20, 24) =~= s.subrange(20, 24));
    assert(a4 =~= w.subrange(0, 20));
    assert(a3 =~= w.subrange(0, 16));
    assert(a4.subrange(16, 20) =~= le32(i32_bits(m.drag_box_size_x)));
    assert(w.subrange(16, 20) =~= s.subrange(16, 20));
    assert(a3 =~= w.subrange(0, 16));
    assert(a2 =~= w.subrange(0, 12));
    assert(a3.subrange(12, 16) =~= le32(i32_bits(m.cursor_target_area)));
    assert(w.subrange(12, 16) =~= s.subrange(12, 16));
    assert(a2 =~= w.subrange(0, 12));
    assert(a1 =~= w.subrange(0, 8));
    assert(a2.subrange(8, 12) =~= le32(i32_bits(m.cursor_offset_y)));
    assert(w.subrange(8, 12) =~= s.subrange(8, 12));
    assert(a1 =~= w.subrange(0, 8));
    assert(a0 =~= w.subrange(0, 4));
    assert(a1.subrange(4, 8) =~= le32(i32_bits(m.cursor_offset_x)));
    assert(w.subrange(4, 8) =~= s.subrange(4, 8));
    assert(a0 =~= s.subrange(0, 4));
}

/// Reads a payload from the start of `b`; bytes after it are ignored.
#[verifier::rlimit(100)]
pub fn decode_data(b: &[u8]) -> (r: Result<BlueprintData, BlueprintError>)
    ensures
        r matches Err(e) ==> e is Truncated,
        r matches Ok(d) ==> ({
            &&& data_wf(d@)
            &&& enc_data(d@).len() <= b@.len()
            &&& enc_data(d@) == b@.subrange(0, enc_data(d@).len() as int)
        }),
        forall|m: DataModel| #[trigger] payload_written(b@, m) ==> (r matches Ok(d) && d@ == m),
{
    proof {
        assert forall|m: DataModel| #[trigger] payload_written(b@, m) implies ({
            &&& b@.len() >= 29
            &&& b@[28] == m.areas.len() as u8
            &&& word_at(b@, 0) == i32_bits(m.version)
            &&& word_at(b@, 4) == i32_bits(m.cursor_offset_x)
            &&& word_at(b@, 8) == i32_bits(m.cursor_offset_y)
            &&& word_at(b@, 12) == i32_bits(m.cursor_target_area)
            &&& word_at(b@, 16) == i32_bits(m.drag_box_size_x)
            &&& word_at(b@, 20) == i32_bits(m.drag_box_size_y)
            &&& word_at(b@, 24) == i32_bits(m.primary_area_idx)
            &&& areas_written_at(b@, 29, m.areas.len(), m.areas)
        }) by {
            let la = enc_areas(m.areas).len() as int;
            let lb = enc_buildings(m.buildings).len() as int;
            lemma_data_pieces(b@, m, la, lb);
            lemma_enc_areas_len(m.areas);
            lemma_word_from(b@, 0, i32_bits(m.version));
            lemma_word_from(b@, 4, i32_bits(m.cursor_offset_x));
            lemma_word_from(b@, 8, i32_bits(m.cursor_offset_y));
            lemma_word_from(b@, 12, i32_bits(m.cursor_target_area));
            lemma_word_from(b@, 16, i32_bits(m.drag_box_size_x));
            lemma_word_from(b@, 20, i32_bits(m.drag_box_size_y));
            lemma_word_from(b@, 24, i32_bits(m.primary_area_idx));
            assert(b@[28] == b@.subrange(28, 29)[0]);
        }
    }
    let len = b.len();
    if len < 29 {
        return Err(BlueprintError::Truncated { at: 0 });
    }
    let version = i32_from_bits(u32_at(b, 0));
    let cursor_offset_x = i32_from_bits(u32_at(b, 4));
    let cursor_offset_y = i32_from_bits(u32_at(b, 8));
    let cursor_target_area = i32_from_bits(u32_at(b, 12));
    let drag_box_size_x = i32_from_bits(u32_at(b, 16));
    let drag_box_size_y = i32_from_bits(u32_at(b, 20));
    let primary_area_idx = i32_from_bits(u32_at(b, 24));
    let area_count = b[28];
    let ghost head = DataModel {
        version,
        cursor_offset_x,
        cursor_offset_y,
        cursor_target_area,
        drag_box_size_x,
        drag_box_size_y,
        primary_area_idx,
        areas: seq![],
        buildings: seq![],
    };
    proof {
        lemma_i32_from_round(u32_of(b@[0], b@[1], b@[2], b@[3]));
        lemma_i32_from_round(u32_of(b@[4], b@[5], b@[6], b@[7]));
        lemma_i32_from_round(u32_of(b@[8], b@[9], b@[10], b@[11]));
        lemma_i32_from_round(u32_of(b@[12], b@[13], b@[14], b@[15]));
        lemma_i32_from_round(u32_of(b@[16], b@[17], b@[18], b@[19]));
        lemma_i32_from_round(u32_of(b@[20], b@[21], b@[22], b@[23]));
        lemma_i32_from_round(u32_of(b@[24], b@[25], b@[26], b@[27]));
        assert(enc_data_head(head) + seq![area_count] =~= b@.subrange(0, 29));
    }
    let (areas, areas_end) = decode_areas(b, 29, area_count)?;
    proof {
        assert forall|m: DataModel| #[trigger] payload_written(b@, m) implies ({
            &&& areas@ == m.areas
            &&& areas_end == 29 + 14 * m.areas.len()
            &&& areas_end + 4 <= b@.len()
            &&& word_at(b@, areas_end as int) == m.buildings.len() as u32
            &&& m.buildings.len() <= 0x7fff_ffff
            &&& buildings_written_at(b@, areas_end + 4, m.buildings.len(), m.buildings)
        }) by {
            let la = enc_areas(m.areas).len() as int;
            let lb = enc_buildings(m.buildings).len() as int;
            lemma_data_pieces(b@, m, la, lb);
            lemma_enc_areas_len(m.areas);
            lemma_i32_bits_round(m.version);
            assert(areas_written_at(b@, 29, area_count as nat, m.areas));
            lemma_word_from(b@, 29 + la, m.buildings.len() as u32);
        }
    }
    if areas_end > len - 4 || len < 4 {
        return Err(BlueprintError::Truncated { at: areas_end });
    }
    let count_bits = u32_at(b, areas_end);
    if count_bits > 0x7fff_ffff {
        return Err(BlueprintError::Truncated { at: areas_end });
    }
    let (buildings, end) = decode_buildings(b, areas_end + 4, count_bits as usize)?;
    proof {
        assert forall|m: DataModel| #[trigger] payload_written(b@, m) implies buildings@.map_values(
            |x: Building| x@,
        ) == m.buildings by {
            assert(buildings_written_at(b@, areas_end + 4, count_bits as nat, m.buildings));
        }
    }
    let d = BlueprintData {
        version,
        cursor_offset_x,
        cursor_offset_y,
        cursor_target_area,
        drag_box_size_x,
        drag_box_size_y,
        primary_area_idx,
        areas,
        buildings,
    };
    proof {
        assert forall|m: DataModel| #[trigger] payload_written(b@, m) implies d@ == m by {
            lemma_i32_bits_round(m.version);
            lemma_i32_bits_round(m.cursor_offset_x);
            lemma_i32_bits_round(m.cursor_offset_y);
            lemma_i32_bits_round(m.cursor_target_area);
            lemma_i32_bits_round(m.drag_box_size_x);
            lemma_i32_bits_round(m.drag_box_size_y);
            lemma_i32_bits_round(m.primary_area_idx);
        }
        assert(d@.areas.len() as u8 == area_count);
        assert(le32(d@.buildings.len() as u32) == b@.subrange(areas_end as int, areas_end + 4));
        assert forall|k: int| 0 <= k < d@.buildings.len() implies building_wf(
            #[trigger] d@.buildings[k],
        ) by {
            assert(d@.buildings[k] == d.buildings@[k]@);
        }
        assert(enc_data(d@) =~= b@.subrange(0, end as int)) by {
            assert(enc_data_head(d@) == enc_data_head(head));
            assert(b@.subrange(0, end as int) =~= b@.subrange(0, 29) + b@.subrange(
                29,
                areas_end as int,
            ) + b@.subrange(areas_end as int, areas_end + 4) + b@.subrange(
                areas_end + 4,
                end as int,
            ));
        }
    }
    Ok(d)
}

} // verus!
