//! Laws that relate the codec's functions to one another.

use vstd::prelude::*;
use crate::blueprint::{
    envelope_ok, header_model, texts_ok, compressed_payload, emit_facts, hash_matches,
    hash_text, has_prefix, numbers_ok, number_ok, numeric_field, parse_error_fits,
    payload_is_base64, payload_of, raw_payload,
    after_prefix, comma, csv_extra, csv_fields, csv_head, csv_text, emitted, emitted_body,
    emitted_payload, icons_text, lemma_decimal_ascii, payload_text, prefix_bytes, quote,
    signed_body, BlueprintModel,
};
use crate::version::csv_is_v10;
use vstd::utf8::encode_utf8;
use crate::bytes::{i32_bits, le32, lemma_words_bytes_len, words_bytes};
use crate::edit::{
    building_items_replaced, items_replaced, param_items_replaced, storage_items_replaced, subst,
    subst_word,
};
use crate::hash::digest;
use crate::model::{
    building_wf, enc_building, enc_header, header_is_v2, param_words, BuildingHeader,
    BuildingModel, ParamModel, StationStorage,
};
use crate::text::{
    decimal, first_index, hex_upper, last_index, lemma_first_index_char, lemma_last_index_char,
};

verus! {

/// A substitution none of whose results is itself replaced.
pub open spec fn image_disjoint(m: Map<u16, u16>) -> bool {
    forall|k: u16| #[trigger] m.contains_key(k) ==> !m.contains_key(m[k])
}

/// Replacing items twice with a map whose image is disjoint from its keys
/// gives the same blueprint as replacing them once.
pub proof fn law_replace_item_idempotent(bp: BlueprintModel, m: Map<u16, u16>)
    requires
        image_disjoint(m),
    ensures
        items_replaced(items_replaced(bp, m), m) == items_replaced(bp, m),
{
    assert forall|x: u16| #[trigger] subst(m, subst(m, x)) == subst(m, x) by {
        if m.contains_key(x) {
            assert(!m.contains_key(m[x]));
        }
    }
    assert forall|x: u32| #[trigger] subst_word(m, subst_word(m, x)) == subst_word(m, x) by {
        if x <= 0xffff && m.contains_key(x as u16) {
            let y = m[x as u16];
            assert(!m.contains_key(y));
            assert((y as u32) as u16 == y);
        }
    }
    let once = items_replaced(bp, m);
    let twice = items_replaced(once, m);
    assert forall|i: int| 0 <= i < bp.data.buildings.len() implies twice.data.buildings[i]
        == once.data.buildings[i] by {
        let b = bp.data.buildings[i];
        let b1 = building_items_replaced(b, m);
        assert(once.data.buildings[i] == b1);
        match b.param {
            ParamModel::Station { interstellar, storage, tail } => {
                let s1 = storage.map_values(|s: StationStorage| storage_items_replaced(s, m));
                let s2 = s1.map_values(|s: StationStorage| storage_items_replaced(s, m));
                assert(s2 =~= s1);
                assert(param_items_replaced(b1.param, m) == b1.param);
            },
            _ => {},
        }
        assert(building_items_replaced(b1, m) == b1);
    }
    assert(twice.data.buildings =~= once.data.buildings);
    assert(twice.data == once.data);
}

/// A well-formed building is written with exactly `parameter_count` words
/// after its header.
pub proof fn law_parameter_words_conserved(b: BuildingModel)
    requires
        building_wf(b),
    ensures
        words_bytes(param_words(b.param)).len() == 4 * b.header.parameter_count,
        enc_building(b).len() == enc_header(b.header).len() + 4 * b.header.parameter_count,
{
    lemma_words_bytes_len(param_words(b.param));
}

/// A header is written with its first word first; an extended header (first
/// word at most -100) also carries its index and tilt, a first-format header
/// neither.
pub proof fn law_header_layout(h: BuildingHeader)
    ensures
        enc_header(h).subrange(0, 4) == le32(i32_bits(h.first_int)),
        header_is_v2(h) ==> enc_header(h).len() == 69 && enc_header(h).subrange(4, 8) == le32(
            h.index_v2,
        ) && enc_header(h).subrange(41, 45) == le32(h.tilt_v2),
        !header_is_v2(h) ==> enc_header(h).len() == 61,
{
    let e = enc_header(h);
    assert(e.subrange(0, 4) =~= le32(i32_bits(h.first_int)));
    if header_is_v2(h) {
        assert(e.subrange(4, 8) =~= le32(h.index_v2));
        assert(e.subrange(41, 45) =~= le32(h.tilt_v2));
    }
}

/// The hash of an emitted blueprint: after its last `"` stand the upper-case
/// hexadecimal digits of the digest of everything before it.
pub proof fn law_hash_integrity(m: BlueprintModel, level: u32)
    ensures
        ({
            let e = emitted(m, level);
            let q = last_index(e, quote());
            &&& q >= 0
            &&& e.subrange(q + 1, e.len() as int) == hex_upper(digest(e.subrange(0, q)))
        }),
{
    let body = emitted_body(m, emitted_payload(m, level));
    let h = hex_upper(digest(body));
    let e = emitted(m, level);
    let q = body.len() as int;
    lemma_hex_digits(digest(body));
    assert forall|j: int| q < j < e.len() implies e[j] != quote() by {
        assert(e[j] == h[j - q - 1]);
    }
    lemma_last_index_char(e, quote(), q);
    assert(e.subrange(0, q) =~= body);
    assert(e.subrange(q + 1, e.len() as int) =~= h);
}

/// Upper-case hexadecimal text holds digits and `A` to `F` only.
pub proof fn lemma_hex_digits(b: Seq<u8>)
    ensures
        forall|i: int|
            0 <= i < hex_upper(b).len() ==> (48 <= #[trigger] hex_upper(b)[i] <= 57 || 65
                <= hex_upper(b)[i] <= 70),
    decreases b.len(),
{
    if b.len() > 0 {
        lemma_hex_digits(b.drop_last());
        let p = hex_upper(b.drop_last());
        let x = b.last();
        assert forall|i: int| 0 <= i < hex_upper(b).len() implies (48 <= #[trigger] hex_upper(b)[i]
            <= 57 || 65 <= hex_upper(b)[i] <= 70) by {
            if i < p.len() {
                assert(hex_upper(b)[i] == p[i]);
            }
        }
    }
}

/// Occurrences of `c` in `s`.
pub open spec fn count_of(s: Seq<u8>, c: u8) -> nat
    decreases s.len(),
{
    if s.len() == 0 {
        0
    } else {
        count_of(s.drop_last(), c) + if s.last() == c {
            1nat
        } else {
            0nat
        }
    }
}

pub proof fn lemma_count_concat(a: Seq<u8>, b: Seq<u8>, c: u8)
    ensures
        count_of(a + b, c) == count_of(a, c) + count_of(b, c),
    decreases b.len(),
{
    if b.len() == 0 {
        assert(a + b =~= a);
    } else {
        assert((a + b).drop_last() =~= a + b.drop_last());
        lemma_count_concat(a, b.drop_last(), c);
    }
}

pub proof fn lemma_count_zero(s: Seq<u8>, c: u8)
    ensures
        count_of(s, c) == 0 <==> forall|i: int| 0 <= i < s.len() ==> s[i] != c,
    decreases s.len(),
{
    if s.len() > 0 {
        lemma_count_zero(s.drop_last(), c);
        if count_of(s, c) == 0 {
            assert forall|i: int| 0 <= i < s.len() implies s[i] != c by {
                if i < s.len() - 1 {
                    assert(s[i] == s.drop_last()[i]);
                }
            }
        } else if forall|i: int| 0 <= i < s.len() ==> s[i] != c {
            assert forall|i: int| 0 <= i < s.drop_last().len() implies s.drop_last()[i] != c by {
                assert(s.drop_last()[i] == s[i]);
            }
            assert(s.last() != c);
        }
    }
}

/// One more field than separators.
pub proof fn lemma_split_count(s: Seq<u8>, c: u8)
    ensures
        crate::text::split_fields(s, c).len() == 1 + count_of(s, c),
    decreases s.len(),
{
    if s.len() > 0 {
        lemma_split_count(s.drop_last(), c);
    }
}

/// Text whose UTF-8 form holds neither `,` nor `"`: a header field as parsing
/// yields it.
pub open spec fn plain(t: Seq<char>) -> bool {
    count_of(encode_utf8(t), comma()) == 0 && count_of(encode_utf8(t), quote()) == 0
}

pub open spec fn texts_plain(m: BlueprintModel) -> bool {
    plain(m.game_version) && plain(m.icon_text) && plain(m.desc) && m.icons.len() == 5
}

/// The header text of an emitted blueprint, prefix included.
pub open spec fn emitted_header(m: BlueprintModel) -> Seq<u8> {
    csv_head(m) + encode_utf8(m.game_version) + seq![comma()] + encode_utf8(m.icon_text) + seq![comma()] + encode_utf8(m.desc) + csv_extra(m)
}

proof fn lemma_decimal_plain(n: nat)
    ensures
        count_of(decimal(n), comma()) == 0,
        count_of(decimal(n), quote()) == 0,
{
    lemma_decimal_ascii(n);
    lemma_count_zero(decimal(n), comma());
    lemma_count_zero(decimal(n), quote());
}

proof fn lemma_header_counts(m: BlueprintModel, c: u8)
    requires
        m.icons.len() == 5,
    ensures
        count_of(emitted_header(m), c) == count_of(prefix_bytes(), c)
            + count_of(seq![if csv_is_v10(m.game_version) { 49u8 } else { 48u8 }, comma()], c)
            + count_of(decimal(m.layout as nat), c) + 5 * count_of(seq![comma()], c)
            + count_of(decimal(m.icons[0] as nat), c) + count_of(decimal(m.icons[1] as nat), c)
            + count_of(decimal(m.icons[2] as nat), c) + count_of(decimal(m.icons[3] as nat), c)
            + count_of(decimal(m.icons[4] as nat), c) + count_of(seq![comma(), 48u8, comma()], c)
            + count_of(decimal(m.timestamp as nat), c) + count_of(seq![comma()], c)
            + count_of(encode_utf8(m.game_version), c) + count_of(seq![comma()], c)
            + count_of(encode_utf8(m.icon_text), c) + count_of(seq![comma()], c)
            + count_of(encode_utf8(m.desc), c) + count_of(csv_extra(m), c),
{
    let a0 = decimal(m.icons[0] as nat);
    lemma_count_concat(a0, seq![comma()], c);
    let a1 = a0 + seq![comma()];
    lemma_count_concat(a1, decimal(m.icons[1] as nat), c);
    let a2 = a1 + decimal(m.icons[1] as nat);
    lemma_count_concat(a2, seq![comma()], c);
    let a3 = a2 + seq![comma()];
    lemma_count_concat(a3, decimal(m.icons[2] as nat), c);
    let a4 = a3 + decimal(m.icons[2] as nat);
    lemma_count_concat(a4, seq![comma()], c);
    let a5 = a4 + seq![comma()];
    lemma_count_concat(a5, decimal(m.icons[3] as nat), c);
    let a6 = a5 + decimal(m.icons[3] as nat);
    lemma_count_concat(a6, seq![comma()], c);
    let a7 = a6 + seq![comma()];
    lemma_count_concat(a7, decimal(m.icons[4] as nat), c);
    let a8 = a7 + decimal(m.icons[4] as nat);
    assert(a8 == icons_text(m.icons));
    let b0 = prefix_bytes();
    lemma_count_concat(b0, seq![if csv_is_v10(m.game_version) { 49u8 } else { 48u8 }, comma()], c);
    let b1 = b0 + seq![if csv_is_v10(m.game_version) { 49u8 } else { 48u8 }, comma()];
    lemma_count_concat(b1, decimal(m.layout as nat), c);
    let b2 = b1 + decimal(m.layout as nat);
    lemma_count_concat(b2, seq![comma()], c);
    let b3 = b2 + seq![comma()];
    lemma_count_concat(b3, icons_text(m.icons), c);
    let b4 = b3 + icons_text(m.icons);
    lemma_count_concat(b4, seq![comma(), 48u8, comma()], c);
    let b5 = b4 + seq![comma(), 48u8, comma()];
    lemma_count_concat(b5, decimal(m.timestamp as nat), c);
    let b6 = b5 + decimal(m.timestamp as nat);
    lemma_count_concat(b6, seq![comma()], c);
    let b7 = b6 + seq![comma()];
    assert(b7 == csv_head(m));
    let k0 = csv_head(m);
    lemma_count_concat(k0, encode_utf8(m.game_version), c);
    let k1 = k0 + encode_utf8(m.game_version);
    lemma_count_concat(k1, seq![comma()], c);
    let k2 = k1 + seq![comma()];
    lemma_count_concat(k2, encode_utf8(m.icon_text), c);
    let k3 = k2 + encode_utf8(m.icon_text);
    lemma_count_concat(k3, seq![comma()], c);
    let k4 = k3 + seq![comma()];
    lemma_count_concat(k4, encode_utf8(m.desc), c);
    let k5 = k4 + encode_utf8(m.desc);
    lemma_count_concat(k5, csv_extra(m), c);
    let k6 = k5 + csv_extra(m);
    assert(k6 == emitted_header(m));
}

proof fn lemma_small_counts(m: BlueprintModel)
    ensures
        count_of(prefix_bytes(), comma()) == 0,
        count_of(prefix_bytes(), quote()) == 0,
        count_of(seq![comma()], comma()) == 1,
        count_of(seq![comma()], quote()) == 0,
        count_of(seq![if csv_is_v10(m.game_version) { 49u8 } else { 48u8 }, comma()], comma()) == 1,
        count_of(seq![if csv_is_v10(m.game_version) { 49u8 } else { 48u8 }, comma()], quote()) == 0,
        count_of(seq![comma(), 48u8, comma()], comma()) == 2,
        count_of(seq![comma(), 48u8, comma()], quote()) == 0,
        count_of(csv_extra(m), comma()) == if csv_is_v10(m.game_version) { 3nat } else { 0nat },
        count_of(csv_extra(m), quote()) == 0,
{
    reveal_with_fuel(count_of, 11);
    let x: u8 = if csv_is_v10(m.game_version) { 49u8 } else { 48u8 };
    assert(seq![x, comma()].drop_last() =~= seq![x]);
    assert(seq![x].drop_last() =~= Seq::<u8>::empty());
    assert(seq![comma()].drop_last() =~= Seq::<u8>::empty());
    let t = seq![comma(), 48u8, comma()];
    assert(t.drop_last() =~= seq![comma(), 48u8]);
    assert(t.drop_last().drop_last() =~= seq![comma()]);
    let p = prefix_bytes();
    assert(p.drop_last() =~= seq![66u8, 76, 85, 69, 80, 82, 73, 78, 84]);
    assert(p.drop_last().drop_last() =~= seq![66u8, 76, 85, 69, 80, 82, 73, 78]);
    assert(p.drop_last().drop_last().drop_last() =~= seq![66u8, 76, 85, 69, 80, 82, 73]);
    assert(p.drop_last().drop_last().drop_last().drop_last() =~= seq![66u8, 76, 85, 69, 80, 82]);
    assert(p.drop_last().drop_last().drop_last().drop_last().drop_last() =~= seq![66u8, 76, 85, 69, 80]);
    assert(p.drop_last().drop_last().drop_last().drop_last().drop_last().drop_last() =~= seq![66u8, 76, 85, 69]);
    assert(p.drop_last().drop_last().drop_last().drop_last().drop_last().drop_last().drop_last() =~= seq![66u8, 76, 85]);
    assert(p.drop_last().drop_last().drop_last().drop_last().drop_last().drop_last().drop_last().drop_last() =~= seq![66u8, 76]);
    assert(p.drop_last().drop_last().drop_last().drop_last().drop_last().drop_last().drop_last().drop_last().drop_last() =~= seq![66u8]);
    assert(seq![66u8].drop_last() =~= Seq::<u8>::empty());
    if csv_is_v10(m.game_version) {
        let e = seq![comma(), comma(), comma()];
        assert(e.drop_last() =~= seq![comma(), comma()]);
        assert(e.drop_last().drop_last() =~= seq![comma()]);
    }
}

/// The signed body of an emitted blueprint is its header, a `"`, and the
/// base64 payload; the header holds no `"`.
pub proof fn lemma_emitted_parts(m: BlueprintModel, level: u32)
    requires
        texts_plain(m),
    ensures
        signed_body(emitted(m, level)) == emitted_header(m) + seq![quote()] + emitted_payload(m, level),
        count_of(emitted_header(m), quote()) == 0,
        csv_text(emitted(m, level)) == emitted_header(m).subrange(10, emitted_header(m).len() as int),
        payload_text(emitted(m, level)) == emitted_payload(m, level),
{
    let e = emitted(m, level);
    let payload = emitted_payload(m, level);
    let body = emitted_body(m, payload);
    let k = emitted_header(m);
    assert(body == k + seq![quote()] + payload);
    let h = hex_upper(digest(body));
    lemma_hex_digits(digest(body));
    assert forall|j: int| body.len() < j < e.len() implies e[j] != quote() by {
        assert(e[j] == h[j - body.len() - 1]);
    }
    lemma_last_index_char(e, quote(), body.len() as int);
    assert(signed_body(e) =~= body);
    lemma_header_counts(m, quote());
    lemma_small_counts(m);
    lemma_decimal_plain(m.layout as nat);
    lemma_decimal_plain(m.icons[0] as nat);
    lemma_decimal_plain(m.icons[1] as nat);
    lemma_decimal_plain(m.icons[2] as nat);
    lemma_decimal_plain(m.icons[3] as nat);
    lemma_decimal_plain(m.icons[4] as nat);
    lemma_decimal_plain(m.timestamp as nat);
    assert(count_of(k, quote()) == 0);
    lemma_count_zero(k, quote());
    assert(k.len() >= 10) by {
        assert(csv_head(m).len() >= 10);
    }
    let rest = after_prefix(e);
    assert(rest =~= body.subrange(10, body.len() as int));
    assert forall|j: int| 0 <= j < k.len() - 10 implies rest[j] != quote() by {
        assert(rest[j] == k[j + 10]);
    }
    assert(rest[k.len() - 10] == quote());
    lemma_first_index_char(rest, quote(), k.len() - 10);
    assert(csv_text(e) =~= k.subrange(10, k.len() as int));
    assert(payload_text(e) =~= payload);
}

/// Commas in the header of an emitted blueprint, after its prefix.
proof fn lemma_csv_commas(m: BlueprintModel)
    requires
        texts_plain(m),
    ensures
        count_of(emitted_header(m).subrange(10, emitted_header(m).len() as int), comma()) == if csv_is_v10(
            m.game_version,
        ) {
            14nat
        } else {
            11nat
        },
{
    let k = emitted_header(m);
    lemma_header_counts(m, comma());
    lemma_small_counts(m);
    lemma_decimal_plain(m.layout as nat);
    lemma_decimal_plain(m.icons[0] as nat);
    lemma_decimal_plain(m.icons[1] as nat);
    lemma_decimal_plain(m.icons[2] as nat);
    lemma_decimal_plain(m.icons[3] as nat);
    lemma_decimal_plain(m.icons[4] as nat);
    lemma_decimal_plain(m.timestamp as nat);
    lemma_head_start(m);
    let csv = k.subrange(10, k.len() as int);
    assert(k =~= k.subrange(0, 10) + csv);
    lemma_count_concat(k.subrange(0, 10), csv, comma());
}

/// The header format follows the game version: from 0.10.30.22239 on, the
/// string starts `BLUEPRINT:1,` and the header has 15 fields; before, it
/// starts `BLUEPRINT:0,` and has 12.
pub proof fn law_csv_variant(m: BlueprintModel, level: u32)
    requires
        texts_plain(m),
    ensures
        csv_is_v10(m.game_version) ==> emitted(m, level).subrange(0, 12) == prefix_bytes() + seq![
            49u8,
            comma(),
        ] && csv_fields(emitted(m, level)).len() == 15,
        !csv_is_v10(m.game_version) ==> emitted(m, level).subrange(0, 12) == prefix_bytes()
            + seq![48u8, comma()] && csv_fields(emitted(m, level)).len() == 12,
{
    lemma_emitted_parts(m, level);
    lemma_csv_commas(m);
    lemma_head_start(m);
    let e = emitted(m, level);
    let k = emitted_header(m);
    let csv = k.subrange(10, k.len() as int);
    lemma_split_count(csv, comma());
    let body = signed_body(e);
    assert(forall|i: int| 0 <= i < 12 ==> e[i] == body[i]);
    assert(forall|i: int| 0 <= i < 12 ==> body[i] == k[i]);
    assert(e.subrange(0, 12) =~= k.subrange(0, 12));
}

/// An emitted header starts with `BLUEPRINT:` and the format marker.
proof fn lemma_head_start(m: BlueprintModel)
    requires
        m.icons.len() == 5,
    ensures
        emitted_header(m).subrange(0, 10) == prefix_bytes(),
        emitted_header(m).subrange(0, 12) == prefix_bytes() + seq![if csv_is_v10(m.game_version) { 49u8 } else { 48u8 }, comma()],
{
    let x: u8 = if csv_is_v10(m.game_version) { 49u8 } else { 48u8 };
    let p12 = prefix_bytes() + seq![x, comma()];
    let h = csv_head(m);
    assert(h.len() >= 12);
    assert(forall|i: int| 0 <= i < 12 ==> h[i] == p12[i]);
    let k = emitted_header(m);
    assert(forall|i: int| 0 <= i < 12 ==> k[i] == h[i]);
    assert(k.subrange(0, 12) =~= p12);
    assert(k.subrange(0, 10) =~= prefix_bytes());
}

/// The fields of `x` hold no separator, and no `c` that `x` lacks.
pub proof fn lemma_split_fields_free(x: Seq<u8>, sep: u8, c: u8)
    requires
        count_of(x, c) == 0,
    ensures
        forall|i: int| 0 <= i < crate::text::split_fields(x, sep).len() ==> count_of(
            #[trigger] crate::text::split_fields(x, sep)[i],
            sep,
        ) == 0 && count_of(crate::text::split_fields(x, sep)[i], c) == 0,
    decreases x.len(),
{
    let f = crate::text::split_fields(x, sep);
    if x.len() == 0 {
        assert(f =~= seq![Seq::<u8>::empty()]);
        reveal_with_fuel(count_of, 2);
    } else {
        let x0 = x.drop_last();
        lemma_count_concat(x0, seq![x.last()], c);
        assert(x0 + seq![x.last()] =~= x);
        reveal_with_fuel(count_of, 2);
        lemma_split_fields_free(x0, sep, c);
        crate::text::lemma_split_fields_nonempty(x0, sep);
        let f0 = crate::text::split_fields(x0, sep);
        if x.last() != sep {
            let l = f0.last();
            lemma_count_concat(l, seq![x.last()], sep);
            lemma_count_concat(l, seq![x.last()], c);
            assert(l.push(x.last()) =~= l + seq![x.last()]);
            assert forall|i: int| 0 <= i < f.len() implies count_of(#[trigger] f[i], sep) == 0
                && count_of(f[i], c) == 0 by {
                if i < f0.len() - 1 {
                    assert(f[i] == f0[i]);
                }
            }
        } else {
            assert forall|i: int| 0 <= i < f.len() implies count_of(#[trigger] f[i], sep) == 0
                && count_of(f[i], c) == 0 by {
                if i < f0.len() {
                    assert(f[i] == f0[i]);
                } else {
                    assert(f[i] =~= Seq::<u8>::empty());
                }
            }
        }
    }
}

/// A parsed blueprint's text fields hold neither `,` nor `"`, so the header
/// laws of emission apply to it.
pub proof fn law_parsed_texts_plain(s: Seq<u8>, d: crate::model::DataModel)
    requires
        envelope_ok(s),
    ensures
        texts_plain(header_model(s, d)),
{
    broadcast use vstd::utf8::decode_utf8_encode_utf8;

    let rest = after_prefix(s);
    let q = first_index(rest, quote());
    crate::text::lemma_first_index(rest, quote());
    let csv = csv_text(s);
    assert forall|i: int| 0 <= i < csv.len() implies csv[i] != quote() by {
        assert(csv[i] == rest[i]);
    }
    lemma_count_zero(csv, quote());
    lemma_split_fields_free(csv, comma(), quote());
    let f = csv_fields(s);
    assert(count_of(f[9], comma()) == 0 && count_of(f[9], quote()) == 0);
    assert(count_of(f[10], comma()) == 0 && count_of(f[10], quote()) == 0);
    assert(count_of(f[11], comma()) == 0 && count_of(f[11], quote()) == 0);
    assert(encode_utf8(vstd::utf8::decode_utf8(f[9])) == f[9]);
    assert(encode_utf8(vstd::utf8::decode_utf8(f[10])) == f[10]);
    assert(encode_utf8(vstd::utf8::decode_utf8(f[11])) == f[11]);
}

/// A separator-free start joins the first field.
pub proof fn lemma_split_prefix(p: Seq<u8>, t: Seq<u8>, sep: u8)
    requires
        count_of(p, sep) == 0,
    ensures
        crate::text::split_fields(p + t, sep).len() == crate::text::split_fields(t, sep).len(),
        crate::text::split_fields(p + t, sep)[0] == p + crate::text::split_fields(t, sep)[0],
        forall|i: int|
            1 <= i < crate::text::split_fields(t, sep).len() ==> #[trigger] crate::text::split_fields(
                p + t,
                sep,
            )[i] == crate::text::split_fields(t, sep)[i],
    decreases t.len(),
{
    let f = crate::text::split_fields(p + t, sep);
    let g = crate::text::split_fields(t, sep);
    if t.len() == 0 {
        lemma_count_zero(p, sep);
        crate::text::lemma_split_fields_single(p, sep);
        assert(p + t =~= p);
        assert(p + g[0] =~= p);
    } else {
        let t0 = t.drop_last();
        assert((p + t).drop_last() =~= p + t0);
        assert((p + t).last() == t.last());
        lemma_split_prefix(p, t0, sep);
        crate::text::lemma_split_fields_nonempty(t0, sep);
        let g0 = crate::text::split_fields(t0, sep);
        if t.last() != sep && g0.len() == 1 {
            assert((p + g0[0]).push(t.last()) =~= p + g0[0].push(t.last()));
        }
    }
}

/// Appending a separator and a separator-free field adds that field.
proof fn lemma_split_append(x: Seq<u8>, f: Seq<u8>)
    requires
        count_of(f, comma()) == 0,
    ensures
        crate::text::split_fields(x + seq![comma()] + f, comma()) == crate::text::split_fields(x, comma()).push(f),
{
    lemma_count_zero(f, comma());
    crate::text::lemma_split_fields_concat(x, f, comma());
    crate::text::lemma_split_fields_single(f, comma());
    assert(crate::text::split_fields(x, comma()) + seq![f] =~= crate::text::split_fields(x, comma()).push(f));
}

/// The fields of an emitted header, prefix included.
pub open spec fn emitted_fields(m: BlueprintModel) -> Seq<Seq<u8>> {
    let x0: u8 = if csv_is_v10(m.game_version) { 49u8 } else { 48u8 };
    seq![
        prefix_bytes().push(x0),
        decimal(m.layout as nat),
        decimal(m.icons[0] as nat),
        decimal(m.icons[1] as nat),
        decimal(m.icons[2] as nat),
        decimal(m.icons[3] as nat),
        decimal(m.icons[4] as nat),
        seq![48u8],
        decimal(m.timestamp as nat),
        encode_utf8(m.game_version),
        encode_utf8(m.icon_text),
        encode_utf8(m.desc),
    ] + if csv_is_v10(m.game_version) {
        seq![seq![], seq![], seq![]]
    } else {
        seq![]
    }
}

#[verifier::rlimit(60)]
proof fn lemma_split_header(m: BlueprintModel)
    requires
        texts_plain(m),
    ensures
        crate::text::split_fields(emitted_header(m), comma()) == emitted_fields(m),
{
    let c = comma();
    let x0: u8 = if csv_is_v10(m.game_version) { 49u8 } else { 48u8 };
    let pp = prefix_bytes();
    let l = decimal(m.layout as nat);
    let i0 = decimal(m.icons[0] as nat);
    let i1 = decimal(m.icons[1] as nat);
    let i2 = decimal(m.icons[2] as nat);
    let i3 = decimal(m.icons[3] as nat);
    let i4 = decimal(m.icons[4] as nat);
    let t = decimal(m.timestamp as nat);
    let g = encode_utf8(m.game_version);
    let it = encode_utf8(m.icon_text);
    let d = encode_utf8(m.desc);
    let ex = csv_extra(m);
    lemma_decimal_plain(m.layout as nat);
    lemma_decimal_plain(m.icons[0] as nat);
    lemma_decimal_plain(m.icons[1] as nat);
    lemma_decimal_plain(m.icons[2] as nat);
    lemma_decimal_plain(m.icons[3] as nat);
    lemma_decimal_plain(m.icons[4] as nat);
    lemma_decimal_plain(m.timestamp as nat);
    lemma_small_counts(m);
    reveal_with_fuel(count_of, 2);
    let p0 = pp.push(x0);
    lemma_count_concat(pp, seq![x0], c);
    assert(pp + seq![x0] =~= p0);
    crate::text::lemma_split_fields_single(p0, c);
    lemma_count_zero(p0, c);
    // the prefix, marker and layout
    let q1 = pp + seq![x0, c] + l;
    assert(q1 =~= p0 + seq![c] + l);
    lemma_split_append(p0, l);
    // the icons
    let q = q1 + seq![c];
    lemma_split_append(q1, i0);
    lemma_split_append(q + i0, i1);
    lemma_split_append(q + i0 + seq![c] + i1, i2);
    lemma_split_append(q + i0 + seq![c] + i1 + seq![c] + i2, i3);
    lemma_split_append(q + i0 + seq![c] + i1 + seq![c] + i2 + seq![c] + i3, i4);
    let j = q + icons_text(m.icons);
    assert(j =~= q + i0 + seq![c] + i1 + seq![c] + i2 + seq![c] + i3 + seq![c] + i4);
    // second marker and timestamp
    lemma_count_zero(seq![48u8], c);
    crate::text::lemma_split_fields_concat(j, seq![48u8], c);
    crate::text::lemma_split_fields_single(seq![48u8], c);
    let h1 = j + seq![c, 48u8, c] + t;
    assert(h1 =~= j + seq![c] + seq![48u8] + seq![c] + t);
    lemma_split_append(j + seq![c] + seq![48u8], t);
    // the text fields
    let head = csv_head(m);
    assert(head == h1 + seq![c]);
    lemma_split_append(h1, g);
    lemma_split_append(head + g, it);
    lemma_split_append(head + g + seq![c] + it, d);
    let z = head + g + seq![c] + it + seq![c] + d;
    let k = emitted_header(m);
    assert(k == z + ex);
    let e: Seq<u8> = seq![];
    if csv_is_v10(m.game_version) {
        lemma_count_zero(e, c);
        lemma_split_append(z, e);
        lemma_split_append(z + seq![c] + e, e);
        lemma_split_append(z + seq![c] + e + seq![c] + e, e);
        assert(k =~= z + seq![c] + e + seq![c] + e + seq![c] + e);
    } else {
        assert(k =~= z);
    }
    assert(crate::text::split_fields(k, c) =~= emitted_fields(m));
}

/// Decimal digits read back as their number.
pub proof fn lemma_parse_decimal(n: nat, max: nat)
    requires
        n <= max,
    ensures
        crate::text::parse_unsigned(decimal(n), max) == Some(n),
{
    lemma_decimal_ascii(n);
    lemma_digits_value(n);
    let d = decimal(n);
    assert(crate::text::number_digits(d) == d);
    assert(crate::text::all_digits(d));
}

proof fn lemma_digits_value(n: nat)
    ensures
        crate::text::digits_value(decimal(n)) == n,
    decreases n,
{
    if n >= 10 {
        lemma_digits_value(n / 10);
        let d = decimal(n);
        assert(d.drop_last() =~= decimal(n / 10));
        assert(d.last() == (48 + n % 10) as u8);
        assert(crate::text::digits_value(d) == crate::text::digits_value(d.drop_last()) * 10 + (d.last()
            - 48) as nat);
        assert((n / 10) * 10 + n % 10 == n) by (nonlinear_arith);
    } else {
        let d = decimal(n);
        assert(d.drop_last() =~= Seq::<u8>::empty());
        assert(d.last() == (48 + n) as u8);
        assert(crate::text::digits_value(d) == crate::text::digits_value(d.drop_last()) * 10 + (d.last()
            - 48) as nat);
    }
}

/// The successful outcome of parsing `s` into `bp`, as the parser states it.
pub open spec fn parsed(s: Seq<u8>, bp: BlueprintModel) -> bool {
    &&& envelope_ok(s)
    &&& payload_is_base64(s)
    &&& gunzip_of_some(s)
    &&& payload_of(raw_payload(s), bp.data)
    &&& forall|d: crate::model::DataModel| payload_of(raw_payload(s), d) ==> d == bp.data
    &&& bp == header_model(s, bp.data)
}

pub open spec fn gunzip_of_some(s: Seq<u8>) -> bool {
    crate::frame::gunzip_of(compressed_payload(s)) is Some
}

/// The hash of an emitted blueprint checks out.
proof fn lemma_emitted_hash(m: BlueprintModel, level: u32)
    ensures
        hash_matches(emitted(m, level)),
{
    let e = emitted(m, level);
    law_hash_integrity(m, level);
    let q = last_index(e, quote());
    let body = e.subrange(0, q);
    let dg = digest(body);
    let h = hex_upper(dg);
    assert(dg.len() == 16);
    crate::text::lemma_hex_round_trip(dg);
    lemma_hex_digits(dg);
    assert(!crate::text::is_space(h[0]) && !crate::text::is_space(h.last()));
    assert(crate::text::trimmed(h) == h);
    assert(hash_text(e) == h);
    assert(signed_body(e) == body);
}

/// The prefix and the payload delimiter of an emitted blueprint are in place.
proof fn lemma_emitted_frame(m: BlueprintModel, level: u32)
    requires
        texts_plain(m),
    ensures
        has_prefix(signed_body(emitted(m, level))),
        first_index(after_prefix(emitted(m, level)), quote()) < after_prefix(emitted(m, level)).len(),
{
    let e = emitted(m, level);
    lemma_emitted_parts(m, level);
    lemma_head_start(m);
    let body = signed_body(e);
    let k = emitted_header(m);
    assert(body.subrange(0, 10) =~= k.subrange(0, 10));
    let rest = after_prefix(e);
    crate::text::lemma_first_index(rest, quote());
    assert(csv_text(e).len() == first_index(rest, quote()));
}

/// The header fields of an emitted blueprint, after the first.
proof fn lemma_emitted_csv_fields(m: BlueprintModel, level: u32)
    requires
        texts_plain(m),
    ensures
        csv_fields(emitted(m, level)).len() == emitted_fields(m).len(),
        forall|i: int|
            1 <= i < emitted_fields(m).len() ==> #[trigger] csv_fields(emitted(m, level))[i]
                == emitted_fields(m)[i],
{
    lemma_emitted_parts(m, level);
    lemma_head_start(m);
    let k = emitted_header(m);
    let tail = k.subrange(10, k.len() as int);
    assert(k =~= prefix_bytes() + tail);
    lemma_small_counts(m);
    lemma_split_prefix(prefix_bytes(), tail, comma());
    lemma_split_header(m);
}

/// The hash and the framing of an emitted blueprint check out.
proof fn lemma_emitted_envelope(m: BlueprintModel, level: u32)
    requires
        texts_plain(m),
    ensures
        hash_matches(emitted(m, level)),
        has_prefix(signed_body(emitted(m, level))),
        first_index(after_prefix(emitted(m, level)), quote()) < after_prefix(emitted(m, level)).len(),
        csv_fields(emitted(m, level)).len() == emitted_fields(m).len(),
        forall|i: int|
            1 <= i < emitted_fields(m).len() ==> #[trigger] csv_fields(emitted(m, level))[i]
                == emitted_fields(m)[i],
{
    lemma_emitted_hash(m, level);
    lemma_emitted_frame(m, level);
    lemma_emitted_csv_fields(m, level);
}

/// The header fields of an emitted blueprint read back as its header model.
#[verifier::rlimit(100)]
proof fn lemma_emitted_header_model(m: BlueprintModel, level: u32, d: crate::model::DataModel)
    requires
        texts_plain(m),
    ensures
        numbers_ok(emitted(m, level)),
        texts_ok(emitted(m, level)),
        header_model(emitted(m, level), d) == (BlueprintModel { data: d, ..m }),
{
    broadcast use vstd::utf8::encode_utf8_valid_utf8, vstd::utf8::encode_utf8_decode_utf8;

    lemma_emitted_envelope(m, level);
    let e = emitted(m, level);
    let f = csv_fields(e);
    let ef = emitted_fields(m);
    assert(f[1] == ef[1] && f[2] == ef[2] && f[3] == ef[3] && f[4] == ef[4] && f[5] == ef[5]);
    assert(f[6] == ef[6] && f[8] == ef[8] && f[9] == ef[9] && f[10] == ef[10] && f[11] == ef[11]);
    lemma_parse_decimal(m.layout as nat, u32::MAX as nat);
    lemma_parse_decimal(m.icons[0] as nat, u32::MAX as nat);
    lemma_parse_decimal(m.icons[1] as nat, u32::MAX as nat);
    lemma_parse_decimal(m.icons[2] as nat, u32::MAX as nat);
    lemma_parse_decimal(m.icons[3] as nat, u32::MAX as nat);
    lemma_parse_decimal(m.icons[4] as nat, u32::MAX as nat);
    lemma_parse_decimal(m.timestamp as nat, u64::MAX as nat);
    assert forall|k: int| 0 <= k < 7 implies number_ok(f, #[trigger] numeric_field(k)) by {
        if k == 0 {
        } else if k == 1 {
        } else if k == 2 {
        } else if k == 3 {
        } else if k == 4 {
        } else if k == 5 {
        } else {
        }
    }
    let hm = header_model(e, d);
    assert(hm.icons =~= m.icons);
}

/// The payload of an emitted blueprint reads back as its binary form.
proof fn lemma_emitted_payload(m: BlueprintModel, level: u32)
    requires
        texts_plain(m),
        emit_facts(m, level),
        crate::model::data_wf(m.data),
    ensures
        payload_is_base64(emitted(m, level)),
        gunzip_of_some(emitted(m, level)),
        payload_of(raw_payload(emitted(m, level)), m.data),
{
    let e = emitted(m, level);
    lemma_emitted_parts(m, level);
    let z = gzip_of_data(m, level);
    assert(crate::frame::base64_of(z) == crate::blueprint::payload_text(e));
    assert(payload_is_base64(e));
    assert(compressed_payload(e) == z);
    let enc = crate::model::enc_data(m.data);
    assert(raw_payload(e) == enc);
    assert(enc.subrange(0, enc.len() as int) =~= enc);
}

/// Where every stage passes and a payload reads, no parse error fits.
proof fn lemma_no_parse_error(s: Seq<u8>, d: crate::model::DataModel)
    requires
        envelope_ok(s),
        payload_is_base64(s),
        gunzip_of_some(s),
        payload_of(raw_payload(s), d),
    ensures
        forall|err: crate::error::BlueprintError| !parse_error_fits(s, err),
{
    assert(crate::blueprint::hash_well_formed(s));
}

/// An emitted blueprint passes every stage of parsing, with its own header
/// and payload.
#[verifier::spinoff_prover]
#[verifier::rlimit(100)]
proof fn lemma_emitted_parsed(m: BlueprintModel, level: u32)
    requires
        texts_plain(m),
        emit_facts(m, level),
        crate::model::data_wf(m.data),
    ensures
        envelope_ok(emitted(m, level)),
        payload_is_base64(emitted(m, level)),
        gunzip_of_some(emitted(m, level)),
        payload_of(raw_payload(emitted(m, level)), m.data),
        header_model(emitted(m, level), m.data) == m,
{
    lemma_emitted_split(m, level);
    lemma_emitted_header_model(m, level, m.data);
    lemma_emitted_payload(m, level);
}

#[verifier::spinoff_prover]
proof fn lemma_emitted_split(m: BlueprintModel, level: u32)
    requires
        texts_plain(m),
    ensures
        crate::blueprint::header_split(emitted(m, level)),
{
    lemma_emitted_envelope(m, level);
    assert(emitted_fields(m).len() >= 12);
}

/// Emitting a parsed blueprint and parsing the result gives it back: the
/// parse cannot fail, and whatever it returns equals the blueprint.
#[verifier::spinoff_prover]
pub proof fn law_round_trip(s: Seq<u8>, bp: BlueprintModel, level: u32, bp2: BlueprintModel)
    requires
        parsed(s, bp),
        emit_facts(bp, level),
    ensures
        forall|err: crate::error::BlueprintError| !parse_error_fits(emitted(bp, level), err),
        parsed(emitted(bp, level), bp2) ==> bp2 == bp,
{
    law_parsed_texts_plain(s, bp.data);
    assert(texts_plain(bp));
    lemma_emitted_parsed(bp, level);
    lemma_no_parse_error(emitted(bp, level), bp.data);
}

pub open spec fn gzip_of_data(m: BlueprintModel, level: u32) -> Seq<u8> {
    crate::frame::gzip_of(crate::model::enc_data(m.data), level)
}

} // verus!
