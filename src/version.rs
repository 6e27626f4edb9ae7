//! The header format a game version selects.

use vstd::prelude::*;
use vstd::utf8::encode_utf8;
use crate::text::{parse_decimal, parse_unsigned, split_at_byte, split_fields};

verus! {

/// Number of the dotted part `i` of a version; missing or non-numeric parts are 0.
pub open spec fn version_part(s: Seq<u8>, i: int) -> u32 {
    let parts = split_fields(s, 46);
    if i < parts.len() {
        match parse_unsigned(parts[i], u32::MAX as nat) {
            Some(v) => v as u32,
            None => 0,
        }
    } else {
        0
    }
}

/// The four numbers of a dotted version.
pub open spec fn version_of(s: Seq<u8>) -> Seq<u32> {
    seq![version_part(s, 0), version_part(s, 1), version_part(s, 2), version_part(s, 3)]
}

/// Lexicographic order of two four-part versions.
pub open spec fn version_at_least(a: Seq<u32>, b: Seq<u32>) -> bool {
    a[0] > b[0] || (a[0] == b[0] && (a[1] > b[1] || (a[1] == b[1] && (a[2] > b[2] || (a[2]
        == b[2] && a[3] >= b[3])))))
}

/// The first version whose header carries the newer field layout.
pub open spec fn v10_version() -> Seq<u32> {
    seq![0u32, 10u32, 30u32, 22239u32]
}

/// The header of a blueprint of this game version uses the newer layout.
pub open spec fn csv_is_v10(game_version: Seq<char>) -> bool {
    version_at_least(version_of(encode_utf8(game_version)), v10_version())
}

/// The numbers of a dotted version `s`.
fn parse_version(s: &str) -> (r: Vec<u32>)
    ensures
        r@ == version_of(encode_utf8(s@)),
{
    let parts = split_at_byte(s.as_bytes(), 46);
    let ghost fields = split_fields(encode_utf8(s@), 46);
    let mut r: Vec<u32> = Vec::new();
    let mut i: usize = 0;
    while i < 4
        invariant
            i <= 4,
            parts@.map_values(|f: Vec<u8>| f@) == fields,
            fields == split_fields(encode_utf8(s@), 46),
            r@.len() == i,
            forall|k: int| 0 <= k < i ==> r@[k] == version_part(encode_utf8(s@), k),
        decreases 4 - i,
    {
        let v = if i < parts.len() {
            assert(parts@[i as int]@ == fields[i as int]);
            match parse_decimal(parts[i].as_slice(), u32::MAX as u64) {
                Some(v) => v as u32,
                None => 0,
            }
        } else {
            0
        };
        r.push(v);
        i += 1;
    }
    assert(r@ =~= version_of(encode_utf8(s@)));
    r
}

/// The header format in force while a blueprint is read or written.
#[derive(Clone, Copy, Debug, PartialEq, Eq, Structural)]
pub struct VersionContext {
    pub csv_is_v10: bool,
}

/// The context a game version selects.
pub fn version_context(game_version: &str) -> (r: VersionContext)
    ensures
        r.csv_is_v10 == csv_is_v10(game_version@),
{
    let p = parse_version(game_version);
    let v10 = p[0] > 0 || (p[0] == 0 && (p[1] > 10 || (p[1] == 10 && (p[2] > 30 || (p[2] == 30
        && p[3] >= 22239)))));
    VersionContext { csv_is_v10: v10 }
}

/// True when the header uses the layout of game version 0.10.30.22239 and later.
pub fn is_v10(ctx: &VersionContext) -> (r: bool)
    ensures
        r == ctx.csv_is_v10,
{
    ctx.csv_is_v10
}

/// Runs `f` in the context that `game_version` selects.
pub fn with_game_version<T, F: FnOnce(VersionContext) -> T>(game_version: &str, f: F) -> (r: T)
    requires
        forall|c: VersionContext| c.csv_is_v10 == csv_is_v10(game_version@) ==> f.requires((c,)),
    ensures
        exists|c: VersionContext| c.csv_is_v10 == csv_is_v10(game_version@) && f.ensures((c,), r),
{
    let ctx = version_context(game_version);
    f(ctx)
}

} // verus!
