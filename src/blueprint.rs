//! The blueprint string: header fields, compressed payload and content hash.

use vstd::prelude::*;
use vstd::slice::{slice_subrange, slice_to_vec};
use vstd::utf8::{decode_utf8, encode_utf8, valid_utf8};
use crate::codec::{decode_data, encode_data};
use crate::error::BlueprintError;
use crate::frame::{
    base64_decode, base64_encode, base64_of, gunzip, gunzip_of, gzip, gzip_of, url_decode,
    url_decoded, url_encode, url_encoded, utf8_string,
};
use crate::hash::{digest, digest_of};
use crate::model::{BlueprintData, DataModel, data_encodable, enc_data};
use crate::text::{
    find_first, find_last, first_index, hex_bytes, hex_digit, hex_upper, last_index, lemma_first_index,
    lemma_last_index, parse_decimal, parse_hex, parse_unsigned,
    put_decimal, put_hex_upper, decimal, split_at_byte, split_fields, trim_spaces, trimmed,
};
use crate::version::{csv_is_v10, version_context};

verus! {

/// A parsed blueprint.
#[derive(Clone, Debug, PartialEq, Eq)]
pub struct Blueprint {
    pub layout: u32,
    /// Icon slots: 0 empty, 1 to 999 a signal, 1000 to 19999 an item,
    /// 20000 and above a recipe.
    pub icons: [u32; 5],
    pub timestamp: u64,
    pub game_version: String,
    /// Percent-encoded label.
    pub icon_text: String,
    /// Percent-encoded description.
    pub desc: String,
    pub data: BlueprintData,
}

pub ghost struct BlueprintModel {
    pub layout: u32,
    pub icons: Seq<u32>,
    pub timestamp: u64,
    pub game_version: Seq<char>,
    pub icon_text: Seq<char>,
    pub desc: Seq<char>,
    pub data: DataModel,
}

impl View for Blueprint {
    type V = BlueprintModel;

    open spec fn view(&self) -> BlueprintModel {
        BlueprintModel {
            layout: self.layout,
            icons: self.icons@,
            timestamp: self.timestamp,
            game_version: self.game_version@,
            icon_text: self.icon_text@,
            desc: self.desc@,
            data: self.data@,
        }
    }
}

pub open spec fn quote() -> u8 {
    34
}

pub open spec fn comma() -> u8 {
    44
}

/// `BLUEPRINT:`
pub open spec fn prefix_bytes() -> Seq<u8> {
    seq![66u8, 76, 85, 69, 80, 82, 73, 78, 84, 58]
}

/// The signed body: everything before the last `"`.
pub open spec fn signed_body(s: Seq<u8>) -> Seq<u8> {
    s.subrange(0, last_index(s, quote()))
}

/// The hash text: everything after the last `"`, trimmed.
pub open spec fn hash_text(s: Seq<u8>) -> Seq<u8> {
    trimmed(s.subrange(last_index(s, quote()) + 1, s.len() as int))
}

pub open spec fn has_prefix(body: Seq<u8>) -> bool {
    body.len() >= 10 && body.subrange(0, 10) == prefix_bytes()
}

/// The signed body after `BLUEPRINT:`.
pub open spec fn after_prefix(s: Seq<u8>) -> Seq<u8> {
    let body = signed_body(s);
    body.subrange(10, body.len() as int)
}

/// The header: the text after the prefix up to the first `"`.
pub open spec fn csv_text(s: Seq<u8>) -> Seq<u8> {
    let rest = after_prefix(s);
    rest.subrange(0, first_index(rest, quote()))
}

/// The base64 payload: the text after the first `"` of the signed body.
pub open spec fn payload_text(s: Seq<u8>) -> Seq<u8> {
    let rest = after_prefix(s);
    rest.subrange(first_index(rest, quote()) + 1, rest.len() as int)
}

pub open spec fn csv_fields(s: Seq<u8>) -> Seq<Seq<u8>> {
    split_fields(csv_text(s), comma())
}

/// Limit of numeric header field `i`: the timestamp is 64-bit, the rest 32-bit.
pub open spec fn field_max(i: int) -> nat {
    if i == 8 {
        u64::MAX as nat
    } else {
        u32::MAX as nat
    }
}

/// The numeric header fields, in the order they are read.
pub open spec fn numeric_field(k: int) -> int {
    if k < 6 {
        k + 1
    } else {
        8
    }
}

pub open spec fn number_ok(f: Seq<Seq<u8>>, i: int) -> bool {
    parse_unsigned(f[i], field_max(i)) is Some
}

pub open spec fn number_at(f: Seq<Seq<u8>>, i: int) -> nat {
    parse_unsigned(f[i], field_max(i))->Some_0
}

/// The envelope stages that come before the payload, in order.
pub open spec fn has_hash_delimiter(s: Seq<u8>) -> bool {
    last_index(s, quote()) >= 0
}

pub open spec fn hash_well_formed(s: Seq<u8>) -> bool {
    has_hash_delimiter(s) && hash_text(s).len() == 32 && hex_bytes(hash_text(s)) is Some
}

pub open spec fn hash_matches(s: Seq<u8>) -> bool {
    hash_well_formed(s) && hex_bytes(hash_text(s)) == Some(digest(signed_body(s)))
}

pub open spec fn header_split(s: Seq<u8>) -> bool {
    &&& hash_matches(s)
    &&& has_prefix(signed_body(s))
    &&& first_index(after_prefix(s), quote()) < after_prefix(s).len()
    &&& csv_fields(s).len() >= 12
}

pub open spec fn numbers_ok(s: Seq<u8>) -> bool {
    forall|k: int| 0 <= k < 7 ==> number_ok(csv_fields(s), #[trigger] numeric_field(k))
}

pub open spec fn texts_ok(s: Seq<u8>) -> bool {
    let f = csv_fields(s);
    valid_utf8(f[9]) && valid_utf8(f[10]) && valid_utf8(f[11])
}

/// The envelope is sound up to the compressed payload.
pub open spec fn envelope_ok(s: Seq<u8>) -> bool {
    header_split(s) && numbers_ok(s) && texts_ok(s)
}

pub open spec fn payload_is_base64(s: Seq<u8>) -> bool {
    exists|v: Seq<u8>| base64_of(v) == payload_text(s)
}

/// The compressed payload.
pub open spec fn compressed_payload(s: Seq<u8>) -> Seq<u8> {
    choose|v: Seq<u8>| base64_of(v) == payload_text(s)
}

/// The decompressed payload.
pub open spec fn raw_payload(s: Seq<u8>) -> Seq<u8> {
    gunzip_of(compressed_payload(s))->Some_0
}

/// The header part of the model that the string `s` describes.
pub open spec fn header_model(s: Seq<u8>, data: DataModel) -> BlueprintModel {
    let f = csv_fields(s);
    BlueprintModel {
        layout: number_at(f, 1) as u32,
        icons: seq![
            number_at(f, 2) as u32,
            number_at(f, 3) as u32,
            number_at(f, 4) as u32,
            number_at(f, 5) as u32,
            number_at(f, 6) as u32,
        ],
        timestamp: number_at(f, 8) as u64,
        game_version: decode_utf8(f[9]),
        icon_text: decode_utf8(f[10]),
        desc: decode_utf8(f[11]),
        data,
    }
}

/// A well-formed payload that the bytes `raw` start with.
pub open spec fn payload_of(raw: Seq<u8>, d: DataModel) -> bool {
    crate::codec::payload_written(raw, d)
}

fn has_blueprint_prefix(b: &[u8]) -> (r: bool)
    ensures
        r == has_prefix(b@),
{
    if b.len() < 10 {
        return false;
    }
    let r = b[0] == 66 && b[1] == 76 && b[2] == 85 && b[3] == 69 && b[4] == 80 && b[5] == 82
        && b[6] == 73 && b[7] == 78 && b[8] == 84 && b[9] == 58;
    assert(r == (b@.subrange(0, 10) =~= prefix_bytes()));
    r
}

fn bytes_equal(a: &Vec<u8>, b: &Vec<u8>) -> (r: bool)
    ensures
        r == (a@ == b@),
{
    if a.len() != b.len() {
        return false;
    }
    let mut i: usize = 0;
    while i < a.len()
        invariant
            i <= a@.len(),
            a@.len() == b@.len(),
            forall|j: int| 0 <= j < i ==> a@[j] == b@[j],
        decreases a.len() - i,
    {
        if a[i] != b[i] {
            return false;
        }
        i += 1;
    }
    assert(a@ =~= b@);
    true
}

/// The error a parse reports: that of the first stage that fails.
pub open spec fn parse_error_fits(s: Seq<u8>, e: BlueprintError) -> bool {
    let f = csv_fields(s);
    if !has_hash_delimiter(s) {
        e == BlueprintError::MissingHashDelimiter
    } else if hash_text(s).len() != 32 {
        e == (BlueprintError::HashLength { len: hash_text(s).len() as usize })
    } else if hex_bytes(hash_text(s)) is None {
        e == BlueprintError::HashParse
    } else if !hash_matches(s) {
        e matches BlueprintError::HashMismatch { expected, computed } && hex_bytes(hash_text(s))
            == Some(expected@) && computed@ == digest(signed_body(s))
    } else if !has_prefix(signed_body(s)) {
        e == BlueprintError::MalformedPrefix
    } else if first_index(after_prefix(s), quote()) == after_prefix(s).len() {
        e == BlueprintError::MissingPayloadDelimiter
    } else if f.len() < 12 {
        e == (BlueprintError::MalformedCsv { fields: f.len() as usize })
    } else if !numbers_ok(s) {
        e matches BlueprintError::BadNumber { field } && !number_ok(f, field as int) && exists|k: int|
            0 <= k < 7 && numeric_field(k) == field && forall|j: int|
                0 <= j < k ==> number_ok(f, #[trigger] numeric_field(j))
    } else if !texts_ok(s) {
        e == BlueprintError::InvalidText
    } else if !payload_is_base64(s) {
        e == BlueprintError::Base64
    } else if gunzip_of(compressed_payload(s)) is None {
        e == BlueprintError::Gzip
    } else {
        e is Truncated && forall|d: DataModel| !payload_of(raw_payload(s), d)
    }
}

/// Reads numeric header field `i`.
fn number_field(f: &Vec<Vec<u8>>, i: usize) -> (r: Option<u64>)
    requires
        i < f@.len(),
    ensures
        r matches Some(v) ==> parse_unsigned(f@[i as int]@, field_max(i as int)) == Some(v as nat),
        r is None ==> parse_unsigned(f@[i as int]@, field_max(i as int)) is None,
{
    let max: u64 = if i == 8 { u64::MAX } else { u32::MAX as u64 };
    parse_decimal(f[i].as_slice(), max)
}

impl Blueprint {
    /// Parses a blueprint string; also returns the decompressed payload.
    pub fn new_with_raw_bp(data: &str) -> (r: Result<(Blueprint, Vec<u8>), BlueprintError>)
        ensures
            r matches Err(e) ==> parse_error_fits(encode_utf8(data@), e),
            r matches Ok((bp, raw)) ==> ({
                let s = encode_utf8(data@);
                &&& envelope_ok(s)
                &&& payload_is_base64(s)
                &&& gunzip_of(compressed_payload(s)) == Some(raw@)
                &&& payload_of(raw@, bp@.data)
                &&& forall|d: DataModel| payload_of(raw@, d) ==> d == bp@.data
                &&& bp@ == header_model(s, bp@.data)
            }),
    {
        let ghost s = encode_utf8(data@);
        let b = data.as_bytes();
        assert(b@ == s);
        let q = match find_last(b, 34) {
            Some(q) => q,
            None => {
                return Err(BlueprintError::MissingHashDelimiter);
            },
        };
        proof {
            lemma_last_index(s, quote());
        }
        assert(q < b.len());
        let hash_part = trim_spaces(slice_subrange(b, q + 1, b.len()));
        if hash_part.len() != 32 {
            return Err(BlueprintError::HashLength { len: hash_part.len() });
        }
        let expected = match parse_hex(hash_part.as_slice()) {
            Some(h) => h,
            None => {
                return Err(BlueprintError::HashParse);
            },
        };
        let body = slice_subrange(b, 0, q);
        let computed = digest_of(body);
        if !bytes_equal(&expected, &computed) {
            return Err(BlueprintError::HashMismatch { expected, computed });
        }
        if !has_blueprint_prefix(body) {
            return Err(BlueprintError::MalformedPrefix);
        }
        let rest = slice_subrange(body, 10, body.len());
        assert(rest@ == after_prefix(s));
        let p = find_first(rest, 34);
        proof {
            lemma_first_index(rest@, quote());
        }
        if p == rest.len() {
            return Err(BlueprintError::MissingPayloadDelimiter);
        }
        let csv = slice_subrange(rest, 0, p);
        let b64 = slice_subrange(rest, p + 1, rest.len());
        let fields = split_at_byte(csv, 44);
        let ghost f = csv_fields(s);
        assert(fields@.map_values(|x: Vec<u8>| x@) == f);
        if fields.len() < 12 {
            return Err(BlueprintError::MalformedCsv { fields: fields.len() });
        }
        assert(forall|i: int| 0 <= i < f.len() ==> fields@[i]@ == #[trigger] f[i]);
        let layout = match number_field(&fields, 1) {
            Some(v) => v,
            None => {
                proof {
                    assert(numeric_field(0) == 1);
                    assert(!number_ok(f, numeric_field(0)));
                    assert forall|j: int| 0 <= j < 0 implies number_ok(f, #[trigger] numeric_field(j)) by {
                    }
                }
                return Err(BlueprintError::BadNumber { field: 1 });
            },
        };
        let icon0 = match number_field(&fields, 2) {
            Some(v) => v,
            None => {
                proof {
                    assert(numeric_field(1) == 2);
                    assert(!number_ok(f, numeric_field(1)));
                    assert(numeric_field(0) == 1);
                    assert forall|j: int| 0 <= j < 1 implies number_ok(f, #[trigger] numeric_field(j)) by {
                        if j == 0 {}
                    }
                }
                return Err(BlueprintError::BadNumber { field: 2 });
            },
        };
        let icon1 = match number_field(&fields, 3) {
            Some(v) => v,
            None => {
                proof {
                    assert(numeric_field(2) == 3);
                    assert(!number_ok(f, numeric_field(2)));
                    assert(numeric_field(0) == 1);
                    assert(numeric_field(1) == 2);
                    assert forall|j: int| 0 <= j < 2 implies number_ok(f, #[trigger] numeric_field(j)) by {
                        if j == 0 {}
                        if j == 1 {}
                    }
                }
                return Err(BlueprintError::BadNumber { field: 3 });
            },
        };
        let icon2 = match number_field(&fields, 4) {
            Some(v) => v,
            None => {
                proof {
                    assert(numeric_field(3) == 4);
                    assert(!number_ok(f, numeric_field(3)));
                    assert(numeric_field(0) == 1);
                    assert(numeric_field(1) == 2);
                    assert(numeric_field(2) == 3);
                    assert forall|j: int| 0 <= j < 3 implies number_ok(f, #[trigger] numeric_field(j)) by {
                        if j == 0 {}
                        if j == 1 {}
                        if j == 2 {}
                    }
                }
                return Err(BlueprintError::BadNumber { field: 4 });
            },
        };
        let icon3 = match number_field(&fields, 5) {
            Some(v) => v,
            None => {
                proof {
                    assert(numeric_field(4) == 5);
                    assert(!number_ok(f, numeric_field(4)));
                    assert(numeric_field(0) == 1);
                    assert(numeric_field(1) == 2);
                    assert(numeric_field(2) == 3);
                    assert(numeric_field(3) == 4);
                    assert forall|j: int| 0 <= j < 4 implies number_ok(f, #[trigger] numeric_field(j)) by {
                        if j == 0 {}
                        if j == 1 {}
                        if j == 2 {}
                        if j == 3 {}
                    }
                }
                return Err(BlueprintError::BadNumber { field: 5 });
            },
        };
        let icon4 = match number_field(&fields, 6) {
            Some(v) => v,
            None => {
                proof {
                    assert(numeric_field(5) == 6);
                    assert(!number_ok(f, numeric_field(5)));
                    assert(numeric_field(0) == 1);
                    assert(numeric_field(1) == 2);
                    assert(numeric_field(2) == 3);
                    assert(numeric_field(3) == 4);
                    assert(numeric_field(4) == 5);
                    assert forall|j: int| 0 <= j < 5 implies number_ok(f, #[trigger] numeric_field(j)) by {
                        if j == 0 {}
                        if j == 1 {}
                        if j == 2 {}
                        if j == 3 {}
                        if j == 4 {}
                    }
                }
                return Err(BlueprintError::BadNumber { field: 6 });
            },
        };
        let timestamp = match number_field(&fields, 8) {
            Some(v) => v,
            None => {
                proof {
                    assert(numeric_field(6) == 8);
                    assert(!number_ok(f, numeric_field(6)));
                    assert(numeric_field(0) == 1);
                    assert(numeric_field(1) == 2);
                    assert(numeric_field(2) == 3);
                    assert(numeric_field(3) == 4);
                    assert(numeric_field(4) == 5);
                    assert(numeric_field(5) == 6);
                    assert forall|j: int| 0 <= j < 6 implies number_ok(f, #[trigger] numeric_field(j)) by {
                        if j == 0 {}
                        if j == 1 {}
                        if j == 2 {}
                        if j == 3 {}
                        if j == 4 {}
                        if j == 5 {}
                    }
                }
                return Err(BlueprintError::BadNumber { field: 8 });
            },
        };
        assert(numbers_ok(s)) by {
            assert forall|k: int| 0 <= k < 7 implies number_ok(f, #[trigger] numeric_field(k)) by {
                if k == 0 {
                } else if k == 1 {
                } else if k == 2 {
                } else if k == 3 {
                } else if k == 4 {
                } else if k == 5 {
                } else {
                }
            }
        }
        let game_version = match utf8_string(slice_to_vec(fields[9].as_slice())) {
            Some(t) => t,
            None => {
                return Err(BlueprintError::InvalidText);
            },
        };
        let icon_text = match utf8_string(slice_to_vec(fields[10].as_slice())) {
            Some(t) => t,
            None => {
                return Err(BlueprintError::InvalidText);
            },
        };
        let desc = match utf8_string(slice_to_vec(fields[11].as_slice())) {
            Some(t) => t,
            None => {
                return Err(BlueprintError::InvalidText);
            },
        };
        assert(b64@ == payload_text(s));
        let zipped = match base64_decode(b64) {
            Some(z) => z,
            None => {
                return Err(BlueprintError::Base64);
            },
        };
        assert(base64_of(zipped@) == payload_text(s));
        assert(zipped@ == compressed_payload(s));
        let raw = match gunzip(zipped.as_slice()) {
            Some(v) => v,
            None => {
                return Err(BlueprintError::Gzip);
            },
        };
        let d = match decode_data(raw.as_slice()) {
            Ok(d) => d,
            Err(e) => {
                assert(raw@ == raw_payload(s));
                return Err(e);
            },
        };
        assert(raw@ == raw_payload(s));
        let bp = Blueprint {
            layout: layout as u32,
            icons: [icon0 as u32, icon1 as u32, icon2 as u32, icon3 as u32, icon4 as u32],
            timestamp,
            game_version,
            icon_text,
            desc,
            data: d,
        };
        assert(bp@.icons =~= header_model(s, bp@.data).icons);
        Ok((bp, raw))
    }

    /// Parses a blueprint string.
    pub fn new(data: &str) -> (r: Result<Blueprint, BlueprintError>)
        ensures
            r matches Err(e) ==> parse_error_fits(encode_utf8(data@), e),
            r matches Ok(bp) ==> ({
                let s = encode_utf8(data@);
                &&& envelope_ok(s)
                &&& payload_is_base64(s)
                &&& gunzip_of(compressed_payload(s)) is Some
                &&& payload_of(raw_payload(s), bp@.data)
                &&& forall|d: DataModel| payload_of(raw_payload(s), d) ==> d == bp@.data
                &&& bp@ == header_model(s, bp@.data)
            }),
    {
        let (me, _) = Self::new_with_raw_bp(data)?;
        Ok(me)
    }
}

/// The five icons in decimal, separated by commas.
pub open spec fn icons_text(icons: Seq<u32>) -> Seq<u8> {
    decimal(icons[0] as nat) + seq![comma()] + decimal(icons[1] as nat) + seq![comma()] + decimal(
        icons[2] as nat,
    ) + seq![comma()] + decimal(icons[3] as nat) + seq![comma()] + decimal(icons[4] as nat)
}

/// The header up to the game version: prefix, format marker, layout, icons,
/// second marker and timestamp.
pub open spec fn csv_head(m: BlueprintModel) -> Seq<u8> {
    prefix_bytes() + seq![if csv_is_v10(m.game_version) { 49u8 } else { 48u8 }, comma()] + decimal(
        m.layout as nat,
    ) + seq![comma()] + icons_text(m.icons) + seq![comma(), 48u8, comma()] + decimal(
        m.timestamp as nat,
    ) + seq![comma()]
}

/// Three empty trailing fields in the newer header layout.
pub open spec fn csv_extra(m: BlueprintModel) -> Seq<u8> {
    if csv_is_v10(m.game_version) {
        seq![comma(), comma(), comma()]
    } else {
        seq![]
    }
}

/// The signed body of an emitted blueprint whose base64 payload is `payload`.
pub open spec fn emitted_body(m: BlueprintModel, payload: Seq<u8>) -> Seq<u8> {
    csv_head(m) + encode_utf8(m.game_version) + seq![comma()] + encode_utf8(m.icon_text) + seq![
        comma(),
    ] + encode_utf8(m.desc) + csv_extra(m) + seq![quote()] + payload
}

/// The base64 payload of an emitted blueprint.
pub open spec fn emitted_payload(m: BlueprintModel, level: u32) -> Seq<u8> {
    base64_of(gzip_of(enc_data(m.data), level))
}

/// What emission learns from the framing it calls: the base64 text names
/// one compressed payload only, and that payload decompresses to the binary.
pub open spec fn emit_facts(m: BlueprintModel, level: u32) -> bool {
    &&& forall|v: Seq<u8>| #[trigger] base64_of(v) == emitted_payload(m, level) ==> v == gzip_of(enc_data(m.data), level)
    &&& gunzip_of(gzip_of(enc_data(m.data), level)) == Some(enc_data(m.data))
}

/// The bytes of the string that emitting `m` at compression `level` gives.
pub open spec fn emitted(m: BlueprintModel, level: u32) -> Seq<u8> {
    let body = emitted_body(m, emitted_payload(m, level));
    body + seq![quote()] + hex_upper(digest(body))
}

fn put_bytes(out: &mut Vec<u8>, b: &[u8])
    ensures
        final(out)@ == old(out)@ + b@,
{
    let ghost start = out@;
    let mut i: usize = 0;
    while i < b.len()
        invariant
            i <= b@.len(),
            out@ == start + b@.subrange(0, i as int),
        decreases b.len() - i,
    {
        out.push(b[i]);
        assert(out@ =~= start + b@.subrange(0, i + 1));
        i += 1;
    }
    assert(b@.subrange(0, b@.len() as int) =~= b@);
}

fn put_prefix(out: &mut Vec<u8>)
    ensures
        final(out)@ == old(out)@ + prefix_bytes(),
{
    let ghost start = out@;
    out.push(66);
    out.push(76);
    out.push(85);
    out.push(69);
    out.push(80);
    out.push(82);
    out.push(73);
    out.push(78);
    out.push(84);
    out.push(58);
    assert(out@ =~= start + prefix_bytes());
}

fn put_icons(out: &mut Vec<u8>, icons: &[u32; 5])
    ensures
        final(out)@ == old(out)@ + icons_text(icons@),
{
    let ghost start = out@;
    put_decimal(out, icons[0] as u64);
    out.push(44);
    put_decimal(out, icons[1] as u64);
    out.push(44);
    put_decimal(out, icons[2] as u64);
    out.push(44);
    put_decimal(out, icons[3] as u64);
    out.push(44);
    put_decimal(out, icons[4] as u64);
    assert(out@ =~= start + icons_text(icons@));
}

fn put_csv_head(out: &mut Vec<u8>, bp: &Blueprint, v10: bool)
    requires
        v10 == csv_is_v10(bp.game_version@),
    ensures
        final(out)@ == old(out)@ + csv_head(bp@),
{
    let ghost start = out@;
    put_prefix(out);
    out.push(if v10 { 49 } else { 48 });
    out.push(44);
    put_decimal(out, bp.layout as u64);
    out.push(44);
    put_icons(out, &bp.icons);
    out.push(44);
    out.push(48);
    out.push(44);
    put_decimal(out, bp.timestamp);
    out.push(44);
    assert(out@ =~= start + csv_head(bp@));
}

pub proof fn lemma_ascii_valid(b: Seq<u8>)
    requires
        forall|i: int| 0 <= i < b.len() ==> #[trigger] b[i] < 128,
    ensures
        valid_utf8(b),
{
    let chars = Seq::new(b.len(), |i: int| b[i] as char);
    assert(vstd::utf8::is_ascii_chars(chars));
    vstd::utf8::is_ascii_chars_encode_utf8(chars);
    assert(encode_utf8(chars) =~= b);
    vstd::utf8::encode_utf8_valid_utf8(chars);
}

pub proof fn lemma_decimal_ascii(n: nat)
    ensures
        forall|i: int| 0 <= i < decimal(n).len() ==> 48 <= #[trigger] decimal(n)[i] <= 57,
        decimal(n).len() >= 1,
    decreases n,
{
    if n >= 10 {
        lemma_decimal_ascii(n / 10);
    }
}

pub proof fn lemma_hex_ascii(b: Seq<u8>)
    ensures
        forall|i: int| 0 <= i < hex_upper(b).len() ==> #[trigger] hex_upper(b)[i] < 128,
    decreases b.len(),
{
    if b.len() > 0 {
        lemma_hex_ascii(b.drop_last());
        let x = b.last();
        assert(hex_digit(x / 16) < 128 && hex_digit(x % 16) < 128);
        let p = hex_upper(b.drop_last());
        assert forall|i: int| 0 <= i < hex_upper(b).len() implies #[trigger] hex_upper(b)[i] < 128 by {
            if i < p.len() {
                assert(hex_upper(b)[i] == p[i]);
            }
        }
    }
}

proof fn lemma_head_ascii(m: BlueprintModel)
    ensures
        forall|i: int| 0 <= i < csv_head(m).len() ==> #[trigger] csv_head(m)[i] < 128,
{
    lemma_decimal_ascii(m.layout as nat);
    lemma_decimal_ascii(m.icons[0] as nat);
    lemma_decimal_ascii(m.icons[1] as nat);
    lemma_decimal_ascii(m.icons[2] as nat);
    lemma_decimal_ascii(m.icons[3] as nat);
    lemma_decimal_ascii(m.icons[4] as nat);
    lemma_decimal_ascii(m.timestamp as nat);
    assert forall|i: int| 0 <= i < csv_head(m).len() implies #[trigger] csv_head(m)[i] < 128 by {
    }
}

fn put_signed_body(out: &mut Vec<u8>, bp: &Blueprint, v10: bool, payload: &[u8])
    requires
        v10 == csv_is_v10(bp.game_version@),
    ensures
        final(out)@ == old(out)@ + emitted_body(bp@, payload@),
{
    let ghost start = out@;
    put_csv_head(out, bp, v10);
    let ghost a0 = out@;
    put_bytes(out, bp.game_version.as_str().as_bytes());
    out.push(44);
    let ghost a1 = out@;
    assert(a1 =~= a0 + encode_utf8(bp.game_version@) + seq![comma()]);
    put_bytes(out, bp.icon_text.as_str().as_bytes());
    out.push(44);
    let ghost a2 = out@;
    assert(a2 =~= a1 + encode_utf8(bp.icon_text@) + seq![comma()]);
    put_bytes(out, bp.desc.as_str().as_bytes());
    let ghost before_extra = out@;
    if v10 {
        out.push(44);
        out.push(44);
        out.push(44);
    }
    assert(out@ =~= before_extra + csv_extra(bp@));
    let ghost a3 = out@;
    out.push(34);
    put_bytes(out, payload);
    assert(out@ =~= a3 + seq![quote()] + payload@);
    assert(out@ =~= start + emitted_body(bp@, payload@));
}

/// The signed body of an emitted blueprint is UTF-8.
proof fn lemma_emitted_body_valid(m: BlueprintModel, payload: Seq<u8>)
    requires
        forall|i: int| 0 <= i < payload.len() ==> crate::frame::is_base64_byte(#[trigger] payload[i]),
    ensures
        valid_utf8(emitted_body(m, payload)),
{
    broadcast use vstd::utf8::encode_utf8_valid_utf8;

    let h = csv_head(m);
    lemma_head_ascii(m);
    lemma_ascii_valid(h);
    lemma_ascii_valid(seq![44u8]);
    lemma_ascii_valid(seq![34u8]);
    lemma_ascii_valid(csv_extra(m));
    lemma_ascii_valid(payload);
    let a1 = h + encode_utf8(m.game_version);
    vstd::utf8::valid_utf8_concat(h, encode_utf8(m.game_version));
    let a2 = a1 + seq![44u8];
    vstd::utf8::valid_utf8_concat(a1, seq![44u8]);
    let a3 = a2 + encode_utf8(m.icon_text);
    vstd::utf8::valid_utf8_concat(a2, encode_utf8(m.icon_text));
    let a4 = a3 + seq![44u8];
    vstd::utf8::valid_utf8_concat(a3, seq![44u8]);
    let a5 = a4 + encode_utf8(m.desc);
    vstd::utf8::valid_utf8_concat(a4, encode_utf8(m.desc));
    let a6 = a5 + csv_extra(m);
    vstd::utf8::valid_utf8_concat(a5, csv_extra(m));
    let a7 = a6 + seq![34u8];
    vstd::utf8::valid_utf8_concat(a6, seq![34u8]);
    vstd::utf8::valid_utf8_concat(a7, payload);
    assert(a7 + payload == emitted_body(m, payload));
}

impl Blueprint {
    /// Writes the blueprint string, compressing the payload at `level`.
    pub fn into_bp_string(&self, level: u32) -> (r: Result<String, BlueprintError>)
        requires
            level <= 9,
        ensures
            (r is Ok) <==> data_encodable(self@.data),
            r matches Err(e) ==> e == BlueprintError::TooLarge,
            r matches Ok(t) ==> encode_utf8(t@) == emitted(self@, level),
            r is Ok ==> emit_facts(self@, level),
    {
        if self.data.areas.len() > 255 || self.data.buildings.len() > 0x7fff_ffff {
            return Err(BlueprintError::TooLarge);
        }
        let ctx = version_context(self.game_version.as_str());
        let v10 = ctx.csv_is_v10;
        let payload = encode_data(&self.data);
        let zipped = gzip(payload.as_slice(), level);
        let text = base64_encode(zipped.as_slice());
        let mut out: Vec<u8> = Vec::new();
        put_signed_body(&mut out, self, v10, text.as_slice());
        proof {
            lemma_emitted_body_valid(self@, text@);
        }
        let ghost body = out@;
        let h = digest_of(out.as_slice());
        out.push(34);
        put_hex_upper(&mut out, &h);
        proof {
            broadcast use vstd::utf8::valid_utf8_concat;

            lemma_hex_ascii(h@);
            lemma_ascii_valid(seq![34u8] + hex_upper(h@));
            assert(out@ =~= body + (seq![34u8] + hex_upper(h@)));
            assert(out@ =~= emitted(self@, level));
        }
        let ghost bytes = out@;
        match utf8_string(out) {
            Some(t) => {
                proof {
                    vstd::utf8::decode_utf8_encode_utf8(bytes);
                }
                Ok(t)
            },
            None => Err(BlueprintError::TooLarge),
        }
    }
}

/// The icons after the updates `ups` of (slot, value), in order.
pub open spec fn icons_after(icons: Seq<u32>, ups: Seq<(u64, u32)>) -> Seq<u32>
    decreases ups.len(),
{
    if ups.len() == 0 {
        icons
    } else {
        icons_after(icons, ups.drop_last()).update(ups.last().0 as int, ups.last().1)
    }
}

pub open spec fn slots_in_range(ups: Seq<(u64, u32)>) -> bool {
    forall|i: int| 0 <= i < ups.len() ==> (#[trigger] ups[i]).0 < 5
}

proof fn lemma_icons_after_len(icons: Seq<u32>, ups: Seq<(u64, u32)>)
    requires
        slots_in_range(ups),
        icons.len() == 5,
    ensures
        icons_after(icons, ups).len() == 5,
    decreases ups.len(),
{
    if ups.len() > 0 {
        assert(slots_in_range(ups.drop_last())) by {
            assert forall|i: int| 0 <= i < ups.drop_last().len() implies (
            #[trigger] ups.drop_last()[i]).0 < 5 by {
                assert(ups.drop_last()[i] == ups[i]);
            }
        }
        lemma_icons_after_len(icons, ups.drop_last());
    }
}

impl Blueprint {
    /// Sets icon slots from (slot, value) pairs, in order. Fails, changing
    /// nothing, where a slot is 5 or more.
    pub fn set_icons(&mut self, updates: &Vec<(u64, u32)>) -> (r: Result<(), BlueprintError>)
        ensures
            (r is Ok) <==> slots_in_range(updates@),
            r is Ok ==> final(self)@ == (BlueprintModel {
                icons: icons_after(old(self)@.icons, updates@),
                ..old(self)@
            }),
            r matches Err(e) ==> ({
                &&& final(self)@ == old(self)@
                &&& e matches BlueprintError::IconSlotOutOfRange { slot }
                &&& slot >= 5
                &&& exists|i: int| 0 <= i < updates@.len() && (#[trigger] updates@[i]).0 == slot
            }),
    {
        let n = updates.len();
        let mut i: usize = 0;
        while i < n
            invariant
                i <= n,
                n == updates@.len(),
                forall|k: int| 0 <= k < i ==> (#[trigger] updates@[k]).0 < 5,
            decreases n - i,
        {
            if updates[i].0 >= 5 {
                return Err(BlueprintError::IconSlotOutOfRange { slot: updates[i].0 });
            }
            i += 1;
        }
        let ghost start = self@;
        let mut j: usize = 0;
        while j < n
            invariant
                j <= n,
                n == updates@.len(),
                slots_in_range(updates@),
                start.icons.len() == 5,
                self@ == (BlueprintModel {
                    icons: icons_after(start.icons, updates@.subrange(0, j as int)),
                    ..start
                }),
            decreases n - j,
        {
            let (slot, value) = updates[j];
            let ghost pre = updates@.subrange(0, j as int);
            let ghost post = updates@.subrange(0, j + 1);
            assert(post.drop_last() =~= pre);
            assert(slots_in_range(pre));
            proof {
                lemma_icons_after_len(start.icons, pre);
            }
            self.icons.set(slot as usize, value);
            assert(self@.icons =~= icons_after(start.icons, post));
            j += 1;
        }
        assert(updates@.subrange(0, n as int) =~= updates@);
        Ok(())
    }

    /// The description, percent-decoded.
    pub fn get_description(&self) -> (r: Result<String, BlueprintError>)
        ensures
            (r is Ok) <==> url_decoded(self.desc@) is Some,
            r matches Ok(t) ==> url_decoded(self.desc@) == Some(t@),
            r matches Err(e) ==> e == BlueprintError::InvalidText,
    {
        match url_decode(self.desc.as_str()) {
            Some(t) => Ok(t),
            None => Err(BlueprintError::InvalidText),
        }
    }

    /// Sets the label, percent-encoding `text`.
    pub fn set_icon_text(&mut self, text: &str)
        ensures
            final(self)@ == (BlueprintModel { icon_text: url_encoded(text@), ..old(self)@ }),
    {
        self.icon_text = url_encode(text);
    }

    /// The label, percent-decoded.
    pub fn get_icon_text(&self) -> (r: Result<String, BlueprintError>)
        ensures
            (r is Ok) <==> url_decoded(self.icon_text@) is Some,
            r matches Ok(t) ==> url_decoded(self.icon_text@) == Some(t@),
            r matches Err(e) ==> e == BlueprintError::InvalidText,
    {
        match url_decode(self.icon_text.as_str()) {
            Some(t) => Ok(t),
            None => Err(BlueprintError::InvalidText),
        }
    }
}

} // verus!
