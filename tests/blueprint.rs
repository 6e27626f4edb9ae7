use std::collections::HashMap;

use dspbp::blueprint::Blueprint;
use dspbp::error::BlueprintError;
use dspbp::hash::digest_of;
use dspbp::model::{
    Area, Belt, BlueprintData, Building, BuildingHeader, BuildingParam, Station, StationStorage,
};

fn header(first_int: i32, item_id: u16, model_index: u16, parameter_count: u16) -> BuildingHeader {
    BuildingHeader {
        first_int,
        index_v2: if first_int <= -100 { 7 } else { 0 },
        area_index: 0,
        local_offset_x: 0x3f80_0000,
        local_offset_y: 0xbf00_0000,
        local_offset_z: 0,
        local_offset_x2: 0x4000_0000,
        local_offset_y2: 0,
        local_offset_z2: 0,
        yaw: 0x42b4_0000,
        yaw2: 0x42b4_0000,
        tilt_v2: if first_int <= -100 { 0x3f00_0000 } else { 0 },
        item_id,
        model_index,
        output_object_index: 0xffff_ffff,
        input_object_index: 1,
        output_to_slot: 1,
        input_from_slot: -1,
        output_from_slot: 0,
        input_to_slot: 1,
        output_offset: 0,
        input_offset: 0,
        recipe_id: 0,
        filter_id: 0,
        parameter_count,
    }
}

fn station(interstellar: bool) -> Building {
    let item = if interstellar { 2104 } else { 2103 };
    let n = if interstellar { 5 } else { 3 };
    let mut storage = Vec::new();
    for k in 0..n {
        storage.push(StationStorage {
            item_id: if k == 0 { 1101 } else { 0 },
            local_logic: 1,
            remote_logic: 2,
            max_count: 5000,
            reserved0: 0,
            reserved1: 0,
        });
    }
    let tail: Vec<u32> = (0..(2048 - 6 * n)).map(|i| i as u32).collect();
    Building {
        header: header(3, item, 49, 2048),
        param: BuildingParam::Station(Station { interstellar, storage, tail }),
    }
}

fn sample() -> Blueprint {
    let buildings = vec![
        Building {
            header: header(0, 2001, 35, 0),
            param: BuildingParam::Belt(None),
        },
        Building {
            header: header(1, 2001, 35, 2),
            param: BuildingParam::Belt(Some(Belt { words: vec![1001, 5] })),
        },
        Building {
            header: header(-100, 2303, 65, 3),
            param: BuildingParam::Unknown(vec![9, 8, 7]),
        },
        station(false),
        station(true),
        Building {
            header: header(5, 2002, 36, 0),
            param: BuildingParam::Belt(None),
        },
    ];
    Blueprint {
        layout: 10,
        icons: [1001, 0, 20001, 5, 0],
        timestamp: 638_000_000_000_000_000,
        game_version: "0.9.27.15033".to_string(),
        icon_text: "Belts".to_string(),
        desc: "a%20sample".to_string(),
        data: BlueprintData {
            version: 1,
            cursor_offset_x: 2,
            cursor_offset_y: -3,
            cursor_target_area: 0,
            drag_box_size_x: 4,
            drag_box_size_y: 5,
            primary_area_idx: 0,
            areas: vec![Area {
                index: 0,
                parent_index: -1,
                tropic_anchor: 0,
                area_segments: 200,
                anchor_local_offset_x: -2,
                anchor_local_offset_y: 3,
                width: 10,
                height: 12,
            }],
            buildings,
        },
    }
}

fn hex(b: &[u8]) -> String {
    b.iter().map(|x| format!("{:02X}", x)).collect()
}

/// Signs `body` with its digest, as an emitter would.
fn signed(body: &str) -> String {
    format!("{}\"{}", body, hex(&digest_of(body.as_bytes())))
}

#[test]
fn test_blueprint_parse_rejects_invalid_string() {
    assert!(
        Blueprint::new("not-a-valid-blueprint").is_err(),
        "Blueprint::new should error on invalid input"
    );
}

#[test]
fn test_set_icons_rejects_out_of_range_slot() {
    let mut bp = sample();
    let r = bp.set_icons(&vec![(5, 1001)]);
    assert_eq!(r, Err(BlueprintError::IconSlotOutOfRange { slot: 5 }));
    assert_eq!(bp, sample());
}

#[test]
fn test_set_icons_rejects_invalid_json() {
    let bad: Result<Vec<serde_json::Value>, _> = serde_json::from_str("this is not json");
    assert!(bad.is_err(), "serde_json should error on malformed JSON");
}

#[test]
fn set_icons_accepts_signal_in_slot_zero() {
    let mut bp = sample();
    assert_eq!(bp.set_icons(&vec![(0, 500)]), Ok(()));
    assert_eq!(bp.icons, [500, 0, 20001, 5, 0]);
}

#[test]
fn set_icons_applies_updates_in_order() {
    let mut bp = sample();
    assert_eq!(bp.set_icons(&vec![(4, 1), (4, 2), (1, 1002)]), Ok(()));
    assert_eq!(bp.icons, [1001, 1002, 20001, 5, 2]);
    assert_eq!(bp.icons.len(), 5);
}

#[test]
fn round_trip_keeps_structure() {
    let bp = sample();
    let s = bp.into_bp_string(6).expect("serialize failed");
    assert!(s.starts_with("BLUEPRINT:0,10,1001,0,20001,5,0,0,638000000000000000,0.9.27.15033,Belts,a%20sample\""));
    let (back, raw) = Blueprint::new_with_raw_bp(&s).expect("round-trip parse failed");
    assert_eq!(back, bp);
    let again = back.into_bp_string(9).expect("second serialize failed");
    assert_eq!(Blueprint::new(&again).expect("second parse failed"), bp);
    assert!(raw.len() > 2048 * 4);
}

#[test]
fn v10_encode_decode_round_trip() {
    let mut bp = sample();
    let initial_count = bp.data.buildings.len();
    bp.game_version = "0.10.34.28470".to_string();
    let v10_str = bp.into_bp_string(6).expect("V10 serialize failed");
    assert!(v10_str.starts_with("BLUEPRINT:1,"), "expected V10 fixed0_1=1");
    let bp2 = Blueprint::new(&v10_str).expect("V10 parse failed");
    assert_eq!(bp2.game_version, "0.10.34.28470", "game_version mismatch after V10 round-trip");
    assert_eq!(bp2.data.buildings.len(), initial_count, "building count changed during V10 round-trip");
}

#[test]
fn csv_field_counts_follow_the_version() {
    let mut bp = sample();
    for (version, marker, fields) in [
        ("0.10.30.22239", "BLUEPRINT:1,", 15),
        ("0.10.30.22238", "BLUEPRINT:0,", 12),
        ("1", "BLUEPRINT:1,", 15),
        ("0.10", "BLUEPRINT:0,", 12),
        ("0.x.40.1", "BLUEPRINT:0,", 12),
    ] {
        bp.game_version = version.to_string();
        let s = bp.into_bp_string(6).unwrap();
        assert!(s.starts_with(marker), "{}", version);
        let csv = &s["BLUEPRINT:".len()..s.find('"').unwrap()];
        assert_eq!(csv.split(',').count(), fields, "{}", version);
        let back = Blueprint::new(&s).unwrap();
        assert_eq!(back.game_version, version);
    }
}

#[test]
fn golden_hash_vector() {
    let body = "BLUEPRINT:0,1,0,0,0,0,0,0,0,,,\"";
    assert_eq!(hex(&digest_of(body.as_bytes())), "F9D754EFC386C3E1837A15E62D0E4C6C");
    assert_eq!(hex(&digest_of(b"")), "4F343C5A9CA53D2488FC6A21367E167C");
    assert_eq!(hex(&digest_of(b"abc")), "4096D26FCE797EC56841DB420BFB3601");
}

#[test]
fn golden_vector_parses_to_hash_check_then_payload() {
    let s = signed("BLUEPRINT:0,1,0,0,0,0,0,0,0,,,\"");
    assert_eq!(Blueprint::new(&s), Err(BlueprintError::Gzip));
}

#[test]
fn emitted_hash_matches_body() {
    let s = sample().into_bp_string(6).unwrap();
    let q = s.rfind('"').unwrap();
    assert_eq!(&s[q + 1..], hex(&digest_of(s[..q].as_bytes())));
    assert_eq!(s.len() - q - 1, 32);
}

#[test]
fn hash_tamper_is_detected() {
    let s = sample().into_bp_string(6).unwrap();
    let first = s.find('"').unwrap();
    let last = s.rfind('"').unwrap();
    for i in [first + 1, (first + last) / 2, last - 1] {
        let mut bytes = s.clone().into_bytes();
        bytes[i] ^= 0x01;
        let t = String::from_utf8(bytes).unwrap();
        assert!(
            matches!(Blueprint::new(&t), Err(BlueprintError::HashMismatch { .. })),
            "byte {}",
            i
        );
    }
}

#[test]
fn hash_is_case_insensitive_and_trimmed() {
    let s = sample().into_bp_string(6).unwrap();
    let lower = format!("{}  \n", s.to_lowercase().replace("blueprint:", "BLUEPRINT:"));
    let q = s.rfind('"').unwrap();
    let t = format!("{}{}\n", &s[..q + 1], s[q + 1..].to_lowercase());
    assert_eq!(Blueprint::new(&t).unwrap(), sample());
    assert!(Blueprint::new(&lower).is_err());
}

#[test]
fn envelope_errors() {
    assert_eq!(Blueprint::new("no quote"), Err(BlueprintError::MissingHashDelimiter));
    assert_eq!(Blueprint::new("BLUEPRINT:\"ABC"), Err(BlueprintError::HashLength { len: 3 }));
    assert_eq!(
        Blueprint::new("BLUEPRINT:\"0123456789ABCDEF0123456789ABCDEZ"),
        Err(BlueprintError::HashParse)
    );
    assert!(matches!(
        Blueprint::new("BLUEPRINT:\"0123456789ABCDEF0123456789ABCDEF"),
        Err(BlueprintError::HashMismatch { .. })
    ));
    assert_eq!(Blueprint::new(&signed("BLUEPRINX:0,1")), Err(BlueprintError::MalformedPrefix));
    assert_eq!(
        Blueprint::new(&signed("BLUEPRINT:0,1,0,0,0,0,0,0,0,,,")),
        Err(BlueprintError::MissingPayloadDelimiter)
    );
    assert_eq!(
        Blueprint::new(&signed("BLUEPRINT:0,1,0,0,0,0,0,0,0,,\"")),
        Err(BlueprintError::MalformedCsv { fields: 11 })
    );
    assert_eq!(
        Blueprint::new(&signed("BLUEPRINT:0,1,0,0,x,0,0,0,0,,,\"")),
        Err(BlueprintError::BadNumber { field: 4 })
    );
    assert_eq!(
        Blueprint::new(&signed("BLUEPRINT:0,4294967296,0,0,0,0,0,0,0,,,\"")),
        Err(BlueprintError::BadNumber { field: 1 })
    );
    assert_eq!(
        Blueprint::new(&signed("BLUEPRINT:0,1,0,0,0,0,0,0,-1,,,\"")),
        Err(BlueprintError::BadNumber { field: 8 })
    );
    assert_eq!(
        Blueprint::new(&signed("BLUEPRINT:0,1,0,0,0,0,0,0,0,,,\"!!!!")),
        Err(BlueprintError::Base64)
    );
    assert_eq!(
        Blueprint::new(&signed("BLUEPRINT:0,1,0,0,0,0,0,0,0,,,\"AAAA")),
        Err(BlueprintError::Gzip)
    );
}

#[test]
fn truncated_payload_is_reported() {
    let mut bp = sample();
    bp.data.buildings[5].header.parameter_count = 1;
    let s = bp.into_bp_string(6).unwrap();
    assert!(matches!(Blueprint::new(&s), Err(BlueprintError::Truncated { .. })));
}

#[test]
fn numbers_accept_plus_sign() {
    let s = sample().into_bp_string(6).unwrap();
    let q = s.find('"').unwrap();
    let body = format!("{}\"{}", s[..q].replacen(",10,", ",+10,", 1), &s[q + 1..s.rfind('"').unwrap()]);
    assert_eq!(Blueprint::new(&signed(&body)).unwrap(), sample());
}

#[test]
fn too_many_areas_cannot_be_written() {
    let mut bp = sample();
    let a = bp.data.areas[0];
    bp.data.areas = vec![a; 256];
    assert_eq!(bp.into_bp_string(6), Err(BlueprintError::TooLarge));
    bp.data.areas = vec![a; 255];
    assert_eq!(Blueprint::new(&bp.into_bp_string(1).unwrap()).unwrap().data.areas.len(), 255);
}

#[test]
fn v2_headers_keep_sentinel_and_tilt() {
    let s = sample().into_bp_string(6).unwrap();
    let (bp, raw) = Blueprint::new_with_raw_bp(&s).unwrap();
    let h = bp.data.buildings[2].header;
    assert_eq!(h.first_int, -100);
    assert_eq!(h.index_v2, 7);
    assert_eq!(h.tilt_v2, 0x3f00_0000);
    let v1 = bp.data.buildings[1].header;
    assert_eq!((v1.index_v2, v1.tilt_v2), (0, 0));
    let pos = raw.windows(4).position(|w| w == (-100i32).to_le_bytes()).unwrap();
    assert_eq!(&raw[pos + 4..pos + 8], &7u32.to_le_bytes());
    assert_eq!(&raw[pos + 41..pos + 45], &0x3f00_0000u32.to_le_bytes());
}

#[test]
fn station_and_belt_params_are_typed() {
    let s = sample().into_bp_string(6).unwrap();
    let bp = Blueprint::new(&s).unwrap();
    match &bp.data.buildings[3].param {
        BuildingParam::Station(st) => {
            assert!(!st.interstellar);
            assert_eq!(st.storage.len(), 3);
            assert_eq!(st.storage.len() * 6 + st.tail.len(), 2048);
        }
        _ => panic!("expected a station"),
    }
    match &bp.data.buildings[4].param {
        BuildingParam::Station(st) => assert_eq!(st.storage.len(), 5),
        _ => panic!("expected a station"),
    }
    assert_eq!(bp.data.buildings[0].param, BuildingParam::Belt(None));
    assert_eq!(bp.data.buildings[2].param, BuildingParam::Unknown(vec![9, 8, 7]));
}

#[test]
fn short_station_block_reads_as_raw_words() {
    let mut bp = sample();
    bp.data.buildings[3] = Building {
        header: header(3, 2103, 49, 4),
        param: BuildingParam::Unknown(vec![1, 2, 3, 4]),
    };
    let back = Blueprint::new(&bp.into_bp_string(6).unwrap()).unwrap();
    assert_eq!(back, bp);
}

#[test]
fn belt_upgrade_counts() {
    let mut bp = sample();
    let mk1 = bp.building_count(2001);
    let mk3 = bp.building_count(2003);
    assert_eq!(mk1, 2);
    let mut m = HashMap::new();
    m.insert(2001u16, 2003u16);
    assert_eq!(bp.replace_building(&m), Ok(()));
    assert_eq!(bp.building_count(2001), 0);
    assert_eq!(bp.building_count(2003), mk3 + mk1);
    assert_eq!(bp.data.buildings[1].header.model_index, 37);
    assert_eq!(bp.data.buildings[1].header.parameter_count, 2);
    assert_eq!(bp.data.buildings[0].header.parameter_count, 0);
}

#[test]
fn incompatible_building_replacement_changes_nothing() {
    let mut bp = sample();
    let mut m = HashMap::new();
    m.insert(2001u16, 2104u16);
    assert_eq!(
        bp.replace_building(&m),
        Err(BlueprintError::IncompatibleReplacement { from: 2001, to: 2104 })
    );
    assert_eq!(bp, sample());
}

#[test]
fn replace_item_rewrites_items_filters_and_storage() {
    let mut bp = sample();
    bp.data.buildings[2].header.filter_id = 1101;
    let mut m = HashMap::new();
    m.insert(1101u16, 1104u16);
    bp.replace_item(&m);
    assert_eq!(bp.data.buildings[2].header.filter_id, 1104);
    match &bp.data.buildings[3].param {
        BuildingParam::Station(st) => {
            assert_eq!(st.storage[0].item_id, 1104);
            assert_eq!(st.storage[1].item_id, 0);
        }
        _ => panic!("expected a station"),
    }
    assert_eq!(bp.data.buildings[0].header.item_id, 2001);
}

#[test]
fn replace_item_twice_is_once() {
    let mut m = HashMap::new();
    m.insert(1101u16, 1104u16);
    m.insert(2001u16, 2002u16);
    let mut once = sample();
    once.replace_item(&m);
    let mut twice = once.clone();
    twice.replace_item(&m);
    assert_eq!(once, twice);
    assert_eq!(once.building_count(2002), 3);
}

#[test]
fn replace_recipe_and_both() {
    let mut bp = sample();
    bp.data.buildings[2].header.recipe_id = 1;
    let mut r = HashMap::new();
    r.insert(1u16, 3u16);
    bp.replace_recipe(&r);
    assert_eq!(bp.data.buildings[2].header.recipe_id, 3);

    let mut bp = sample();
    bp.data.buildings[2].header.recipe_id = 1;
    bp.data.buildings[5].header.recipe_id = 77;
    let mut m = HashMap::new();
    m.insert(1101u16, 1104u16);
    bp.replace_both(&m);
    assert_eq!(bp.data.buildings[2].header.recipe_id, 3);
    assert_eq!(bp.data.buildings[5].header.recipe_id, 77);
    match &bp.data.buildings[3].param {
        BuildingParam::Station(st) => assert_eq!(st.storage[0].item_id, 1104),
        _ => panic!("expected a station"),
    }
}

#[test]
fn text_fields_are_percent_coded() {
    let mut bp = sample();
    assert_eq!(bp.get_description().unwrap(), "a sample");
    bp.set_icon_text("Iron & copper");
    assert_eq!(bp.icon_text, "Iron%20%26%20copper");
    assert_eq!(bp.get_icon_text().unwrap(), "Iron & copper");
    bp.desc = "%FF".to_string();
    assert_eq!(bp.get_description(), Err(BlueprintError::InvalidText));
}

#[test]
fn payload_is_compressed_base64() {
    let s = sample().into_bp_string(9).unwrap();
    let first = s.find('"').unwrap();
    let last = s.rfind('"').unwrap();
    let payload = &s[first + 1..last];
    assert!(payload.starts_with("H4sI"));
    assert!(payload.len() < 2 * 2048 * 4);
}

#[test]
fn building_counts_are_sorted_and_exact() {
    let bp = sample();
    assert_eq!(
        bp.building_counts(),
        vec![(2001, 2), (2002, 1), (2103, 1), (2104, 1), (2303, 1)]
    );
}

#[test]
fn edit_applies_lists_in_order() {
    let mut bp = sample();
    bp.data.buildings[2].header.recipe_id = 1;
    bp.data.buildings[2].header.filter_id = 1101;
    assert_eq!(bp.edit("2001:2002, 2002:2003", "", "", "1101:1104"), Ok(()));
    assert_eq!(bp.data.buildings[2].header.filter_id, 1104);
    assert_eq!(bp.data.buildings[2].header.recipe_id, 3);
    assert_eq!(bp.building_count(2001), 0);
    assert_eq!(bp.building_count(2002), 2);
    assert_eq!(bp.building_count(2003), 1);
    assert_eq!(bp.data.buildings[5].header.model_index, 37);
}

#[test]
fn edit_rejects_malformed_lists() {
    let mut bp = sample();
    assert_eq!(
        bp.edit("2001", "", "", ""),
        Err(BlueprintError::MalformedReplacement { text: b"2001".to_vec() })
    );
    assert_eq!(
        bp.edit("", "Iron:1104", "", ""),
        Err(BlueprintError::UnknownUserIdentifier { text: b"Iron".to_vec() })
    );
    assert_eq!(
        bp.edit("", "", "1:70000", ""),
        Err(BlueprintError::UnknownUserIdentifier { text: b"70000".to_vec() })
    );
    assert_eq!(bp, sample());
}

#[test]
fn replacement_lists_skip_blank_entries_and_later_wins() {
    let mut m = HashMap::new();
    assert_eq!(dspbp::replace::parse_replacements(" 1:2 , ,3:4,1:5,", &mut m), Ok(()));
    assert_eq!(m.len(), 2);
    assert_eq!(m[&1], 5);
    assert_eq!(m[&3], 4);
}
