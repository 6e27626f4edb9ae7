//! Replacement lists of the form `From:To,From2:To2`, and the edit that
//! applies them.

use vstd::prelude::*;
use vstd::utf8::encode_utf8;
use std::collections::HashMap;
use crate::blueprint::Blueprint;
use crate::edit::{
    buildings_swappable, buildings_swapped, items_replaced, paired_recipe,
    recipes_replaced, };
use crate::error::BlueprintError;
use crate::model::{BuildingHeader, BuildingModel};
use crate::text::{parse_decimal, parse_unsigned, split_at_byte, split_fields, trim_spaces, trimmed};

verus! {

broadcast use vstd::std_specs::hash::group_hash_axioms;

/// The identifier that a trimmed part of an entry names.
pub open spec fn identifier(part: Seq<u8>) -> Option<u16> {
    match parse_unsigned(trimmed(part), 0xffff) {
        Some(v) => Some(v as u16),
        None => None,
    }
}

/// The pair that an entry `From:To` names.
pub open spec fn entry_pair(e: Seq<u8>) -> Option<(u16, u16)> {
    let parts = split_fields(e, 58);
    if parts.len() == 2 && identifier(parts[0]) is Some && identifier(parts[1]) is Some {
        Some((identifier(parts[0])->Some_0, identifier(parts[1])->Some_0))
    } else {
        None
    }
}

pub open spec fn blank(e: Seq<u8>) -> bool {
    trimmed(e).len() == 0
}

/// `base` with the pairs of the non-blank entries inserted in order.
pub open spec fn entries_map(base: Map<u16, u16>, entries: Seq<Seq<u8>>) -> Map<u16, u16>
    decreases entries.len(),
{
    if entries.len() == 0 {
        base
    } else {
        let prev = entries_map(base, entries.drop_last());
        let e = entries.last();
        if blank(e) || entry_pair(e) is None {
            prev
        } else {
            prev.insert(entry_pair(e)->Some_0.0, entry_pair(e)->Some_0.1)
        }
    }
}

pub open spec fn entries_ok(entries: Seq<Seq<u8>>) -> bool {
    forall|i: int| 0 <= i < entries.len() ==> blank(#[trigger] entries[i]) || entry_pair(entries[i]) is Some
}

fn identifier_of(part: &Vec<u8>) -> (r: Result<u16, BlueprintError>)
    ensures
        r matches Ok(v) ==> identifier(part@) == Some(v),
        r is Err ==> identifier(part@) is None,
        r matches Err(e) ==> e is UnknownUserIdentifier,
{
    let t = trim_spaces(part.as_slice());
    match parse_decimal(t.as_slice(), 0xffff) {
        Some(v) => Ok(v as u16),
        None => Err(BlueprintError::UnknownUserIdentifier { text: t }),
    }
}

/// Adds the entries of the list `s` to `map`, later entries overriding.
pub fn parse_replacements(s: &str, map: &mut HashMap<u16, u16>) -> (r: Result<(), BlueprintError>)
    ensures
        ({
            let entries = split_fields(encode_utf8(s@), 44);
            &&& (r is Ok) <==> entries_ok(entries)
            &&& r is Ok ==> final(map)@ == entries_map(old(map)@, entries)
            &&& r matches Err(e) ==> (e is MalformedReplacement || e is UnknownUserIdentifier)
        }),
{
    let fields = split_at_byte(s.as_bytes(), 44);
    let ghost entries = split_fields(encode_utf8(s@), 44);
    let ghost base = map@;
    assert(forall|i: int| 0 <= i < fields@.len() ==> fields@[i]@ == #[trigger] entries[i]);
    let n = fields.len();
    assert(fields@.map_values(|x: Vec<u8>| x@).len() == fields@.len());
    let mut i: usize = 0;
    while i < n
        invariant
            i <= n,
            n == entries.len(),
            n == fields@.len(),
            entries == split_fields(encode_utf8(s@), 44),
            base == old(map)@,
            forall|k: int| 0 <= k < n ==> fields@[k]@ == #[trigger] entries[k],
            entries_ok(entries.subrange(0, i as int)),
            map@ == entries_map(base, entries.subrange(0, i as int)),
        decreases n - i,
    {
        let ghost pre = entries.subrange(0, i as int);
        let ghost post = entries.subrange(0, i + 1);
        assert(post.drop_last() =~= pre);
        let e = &fields[i];
        assert(e@ == entries[i as int]);
        let t = trim_spaces(e.as_slice());
        if t.len() > 0 {
            let parts = split_at_byte(e.as_slice(), 58);
            assert(parts@.map_values(|x: Vec<u8>| x@) == split_fields(e@, 58));
            assert(split_fields(e@, 58).len() == parts@.len());
            assert(!blank(entries[i as int]));
            if parts.len() != 2 {
                proof {
                    assert(!entries_ok(entries)) by {
                        assert(!blank(entries[i as int]) && entry_pair(entries[i as int]) is None);
                    }
                }
                return Err(BlueprintError::MalformedReplacement { text: t });
            }
            assert(parts@[0]@ == split_fields(e@, 58)[0]);
            assert(parts@[1]@ == split_fields(e@, 58)[1]);
            let from = match identifier_of(&parts[0]) {
                Ok(v) => v,
                Err(err) => {
                    proof {
                        assert(!entries_ok(entries)) by {
                            assert(!blank(entries[i as int]) && entry_pair(entries[i as int]) is None);
                        }
                    }
                    return Err(err);
                },
            };
            let to = match identifier_of(&parts[1]) {
                Ok(v) => v,
                Err(err) => {
                    proof {
                        assert(!entries_ok(entries)) by {
                            assert(!blank(entries[i as int]) && entry_pair(entries[i as int]) is None);
                        }
                    }
                    return Err(err);
                },
            };
            map.insert(from, to);
        }
        assert(entries_ok(post)) by {
            assert forall|k: int| 0 <= k < post.len() implies blank(#[trigger] post[k]) || entry_pair(
                post[k],
            ) is Some by {
                if k < i {
                    assert(post[k] == pre[k]);
                }
            }
        }
        i += 1;
    }
    assert(entries.subrange(0, n as int) =~= entries);
    Ok(())
}

/// The recipe substitution of an edit: the explicit list first, then the
/// default recipes of the items replaced by `both`.
pub open spec fn edit_recipe(recipes: Map<u16, u16>, both: Map<u16, u16>, r: u16) -> u16 {
    if recipes.contains_key(r) {
        recipes[r]
    } else {
        paired_recipe(both, r)
    }
}

impl Blueprint {
    /// Rewrites the recipe of every building by `edit_recipe`.
    pub fn replace_recipe_paired(&mut self, recipes: &HashMap<u16, u16>, both: &HashMap<u16, u16>)
        ensures
            final(self)@ == recipes_replaced(old(self)@, |r: u16| edit_recipe(recipes@, both@, r)),
    {
        let n = self.data.buildings.len();
        let mut out: Vec<crate::model::Building> = Vec::new();
        let mut i: usize = 0;
        while i < n
            invariant
                i <= n,
                n == self.data.buildings@.len(),
                out@.len() == i,
                forall|k: int|
                    0 <= k < i ==> (#[trigger] out@[k])@ == (BuildingModel {
                        header: BuildingHeader {
                            recipe_id: edit_recipe(recipes@, both@, self.data.buildings@[k].header.recipe_id),
                            ..self.data.buildings@[k].header
                        },
                        param: self.data.buildings@[k]@.param,
                    }),
            decreases n - i,
        {
            let b = &self.data.buildings[i];
            let r = b.header.recipe_id;
            let nr = match recipes.get(&r) {
                Some(v) => *v,
                None => crate::edit::paired_recipe_exec(both, r),
            };
            let header = BuildingHeader { recipe_id: nr, ..b.header };
            out.push(crate::model::Building { header, param: crate::edit::copy_param(&b.param) });
            i += 1;
        }
        let ghost before = self@;
        self.data.buildings = out;
        assert(self@.data.buildings =~= recipes_replaced(
            before,
            |r: u16| edit_recipe(recipes@, both@, r),
        ).data.buildings);
        assert(self@ =~= recipes_replaced(before, |r: u16| edit_recipe(recipes@, both@, r)));
    }

    /// Applies four replacement lists: `both` replaces items and their default
    /// recipes, `item` items (over `both`), `recipe` recipes (over the recipes
    /// `both` implies), and `building` buildings, in that order.
    pub fn edit(&mut self, building: &str, item: &str, recipe: &str, both: &str) -> (r: Result<
        (),
        BlueprintError,
    >)
        ensures
            ({
                let lb = split_fields(encode_utf8(building@), 44);
                let li = split_fields(encode_utf8(item@), 44);
                let lr = split_fields(encode_utf8(recipe@), 44);
                let l2 = split_fields(encode_utf8(both@), 44);
                let m2 = entries_map(Map::empty(), l2);
                let mi = entries_map(m2, li);
                let mr = entries_map(Map::empty(), lr);
                let mb = entries_map(Map::empty(), lb);
                let mid = recipes_replaced(
                    items_replaced(old(self)@, mi),
                    |x: u16| edit_recipe(mr, m2, x),
                );
                let lists_ok = entries_ok(l2) && entries_ok(li) && entries_ok(lr) && entries_ok(lb);
                &&& (r is Ok) <==> lists_ok && buildings_swappable(mid, mb)
                &&& r is Ok ==> final(self)@ == buildings_swapped(mid, mb)
                &&& !lists_ok ==> final(self)@ == old(self)@
                &&& (lists_ok && r is Err) ==> final(self)@ == mid
            }),
    {
        let mut m2: HashMap<u16, u16> = HashMap::new();
        parse_replacements(both, &mut m2)?;
        let mut mi: HashMap<u16, u16> = m2.clone();
        parse_replacements(item, &mut mi)?;
        let mut mr: HashMap<u16, u16> = HashMap::new();
        parse_replacements(recipe, &mut mr)?;
        let mut mb: HashMap<u16, u16> = HashMap::new();
        parse_replacements(building, &mut mb)?;
        self.replace_item(&mi);
        self.replace_recipe_paired(&mr, &m2);
        self.replace_building(&mb)
    }
}

} // verus!
