//! Identifier substitution over a parsed blueprint, and building counts.

use vstd::prelude::*;
use std::collections::HashMap;
use vstd::slice::slice_to_vec;
use crate::blueprint::{Blueprint, BlueprintModel};
use crate::error::BlueprintError;
use crate::items::{
    building_kind, default_recipe, item_for_recipe, kind_of_building, recipe_for_item, recipe_item,
};
use crate::model::{
    Belt, Building, BuildingHeader, BuildingModel, BuildingParam, DataModel,
    ParamModel, Station, StationStorage,
};

verus! {

broadcast use vstd::std_specs::hash::group_hash_axioms;

/// `x` after the substitution `m`; keys absent from `m` stay.
pub open spec fn subst(m: Map<u16, u16>, x: u16) -> u16 {
    if m.contains_key(x) {
        m[x]
    } else {
        x
    }
}

/// A 32-bit item word after the substitution `m`.
pub open spec fn subst_word(m: Map<u16, u16>, x: u32) -> u32 {
    if x <= 0xffff && m.contains_key(x as u16) {
        m[x as u16] as u32
    } else {
        x
    }
}

pub open spec fn storage_items_replaced(s: StationStorage, m: Map<u16, u16>) -> StationStorage {
    StationStorage { item_id: subst_word(m, s.item_id), ..s }
}

pub open spec fn param_items_replaced(p: ParamModel, m: Map<u16, u16>) -> ParamModel {
    match p {
        ParamModel::Station { interstellar, storage, tail } => ParamModel::Station {
            interstellar,
            storage: storage.map_values(|s: StationStorage| storage_items_replaced(s, m)),
            tail,
        },
        _ => p,
    }
}

pub open spec fn building_items_replaced(b: BuildingModel, m: Map<u16, u16>) -> BuildingModel {
    BuildingModel {
        header: BuildingHeader {
            item_id: subst(m, b.header.item_id),
            filter_id: subst(m, b.header.filter_id),
            ..b.header
        },
        param: param_items_replaced(b.param, m),
    }
}

/// Every building's item and filter, and every station storage item, after `m`.
pub open spec fn items_replaced(bp: BlueprintModel, m: Map<u16, u16>) -> BlueprintModel {
    BlueprintModel {
        data: DataModel {
            buildings: bp.data.buildings.map_values(|b: BuildingModel| building_items_replaced(b, m)),
            ..bp.data
        },
        ..bp
    }
}

/// Every building's recipe after the substitution `f`.
pub open spec fn recipes_replaced(bp: BlueprintModel, f: spec_fn(u16) -> u16) -> BlueprintModel {
    BlueprintModel {
        data: DataModel {
            buildings: bp.data.buildings.map_values(
                |b: BuildingModel|
                    BuildingModel {
                        header: BuildingHeader { recipe_id: f(b.header.recipe_id), ..b.header },
                        param: b.param,
                    },
            ),
            ..bp.data
        },
        ..bp
    }
}

fn subst_exec(m: &HashMap<u16, u16>, x: u16) -> (r: u16)
    ensures
        r == subst(m@, x),
{
    match m.get(&x) {
        Some(v) => *v,
        None => x,
    }
}

fn subst_word_exec(m: &HashMap<u16, u16>, x: u32) -> (r: u32)
    ensures
        r == subst_word(m@, x),
{
    if x <= 0xffff {
        match m.get(&(x as u16)) {
            Some(v) => *v as u32,
            None => x,
        }
    } else {
        x
    }
}

fn building_items_replaced_exec(b: &Building, m: &HashMap<u16, u16>) -> (r: Building)
    ensures
        r@ == building_items_replaced(b@, m@),
{
    let header = BuildingHeader {
        item_id: subst_exec(m, b.header.item_id),
        filter_id: subst_exec(m, b.header.filter_id),
        ..b.header
    };
    let param = match &b.param {
        BuildingParam::Station(s) => {
            let mut storage: Vec<StationStorage> = Vec::new();
            let mut i: usize = 0;
            while i < s.storage.len()
                invariant
                    i <= s.storage@.len(),
                    storage@ == s.storage@.subrange(0, i as int).map_values(
                        |e: StationStorage| storage_items_replaced(e, m@),
                    ),
                decreases s.storage.len() - i,
            {
                let e = s.storage[i];
                storage.push(StationStorage { item_id: subst_word_exec(m, e.item_id), ..e });
                assert(storage@ =~= s.storage@.subrange(0, i + 1).map_values(
                    |e: StationStorage| storage_items_replaced(e, m@),
                ));
                i += 1;
            }
            assert(s.storage@.subrange(0, s.storage@.len() as int) =~= s.storage@);
            BuildingParam::Station(
                Station {
                    interstellar: s.interstellar,
                    storage,
                    tail: slice_to_vec(s.tail.as_slice()),
                },
            )
        },
        BuildingParam::Belt(None) => BuildingParam::Belt(None),
        BuildingParam::Belt(Some(belt)) => BuildingParam::Belt(
            Some(Belt { words: slice_to_vec(belt.words.as_slice()) }),
        ),
        BuildingParam::Unknown(w) => BuildingParam::Unknown(slice_to_vec(w.as_slice())),
    };
    Building { header, param }
}

pub(crate) fn copy_param(p: &BuildingParam) -> (r: BuildingParam)
    ensures
        r@ == p@,
{
    match p {
        BuildingParam::Station(s) => BuildingParam::Station(
            Station {
                interstellar: s.interstellar,
                storage: slice_to_vec(s.storage.as_slice()),
                tail: slice_to_vec(s.tail.as_slice()),
            },
        ),
        BuildingParam::Belt(None) => BuildingParam::Belt(None),
        BuildingParam::Belt(Some(belt)) => BuildingParam::Belt(
            Some(Belt { words: slice_to_vec(belt.words.as_slice()) }),
        ),
        BuildingParam::Unknown(w) => BuildingParam::Unknown(slice_to_vec(w.as_slice())),
    }
}

impl Blueprint {
    /// Rewrites item and filter of every building, and the item of every
    /// station storage entry, for the keys of `map`.
    pub fn replace_item(&mut self, map: &HashMap<u16, u16>)
        ensures
            final(self)@ == items_replaced(old(self)@, map@),
    {
        let n = self.data.buildings.len();
        let mut out: Vec<Building> = Vec::new();
        let mut i: usize = 0;
        while i < n
            invariant
                i <= n,
                n == self.data.buildings@.len(),
                out@.len() == i,
                forall|k: int|
                    0 <= k < i ==> (#[trigger] out@[k])@ == building_items_replaced(
                        self.data.buildings@[k]@,
                        map@,
                    ),
            decreases n - i,
        {
            let b = building_items_replaced_exec(&self.data.buildings[i], map);
            out.push(b);
            i += 1;
        }
        let ghost before = self@;
        self.data.buildings = out;
        assert(self@.data.buildings =~= items_replaced(before, map@).data.buildings);
        assert(self@ =~= items_replaced(before, map@));
    }

    /// Rewrites the recipe of every building for the keys of `map`.
    pub fn replace_recipe(&mut self, map: &HashMap<u16, u16>)
        ensures
            final(self)@ == recipes_replaced(old(self)@, |r: u16| subst(map@, r)),
    {
        let n = self.data.buildings.len();
        let mut out: Vec<Building> = Vec::new();
        let mut i: usize = 0;
        while i < n
            invariant
                i <= n,
                n == self.data.buildings@.len(),
                out@.len() == i,
                forall|k: int|
                    0 <= k < i ==> (#[trigger] out@[k])@ == (BuildingModel {
                        header: BuildingHeader {
                            recipe_id: subst(map@, self.data.buildings@[k].header.recipe_id),
                            ..self.data.buildings@[k].header
                        },
                        param: self.data.buildings@[k]@.param,
                    }),
            decreases n - i,
        {
            let b = &self.data.buildings[i];
            let header = BuildingHeader { recipe_id: subst_exec(map, b.header.recipe_id), ..b.header };
            out.push(Building { header, param: copy_param(&b.param) });
            i += 1;
        }
        let ghost before = self@;
        self.data.buildings = out;
        assert(self@.data.buildings =~= recipes_replaced(before, |r: u16| subst(map@, r)).data.buildings);
        assert(self@ =~= recipes_replaced(before, |r: u16| subst(map@, r)));
    }
}

/// A building of `item` may take the replacement that `m` gives it: none,
/// itself, or one of the same family.
pub open spec fn swap_allowed(m: Map<u16, u16>, item: u16) -> bool {
    m.contains_key(item) && m[item] != item ==> {
        &&& building_kind(item) is Some
        &&& building_kind(m[item]) is Some
        &&& building_kind(item)->Some_0.0 == building_kind(m[item])->Some_0.0
    }
}

/// A building after the replacement `m`: a new item takes its default model.
pub open spec fn building_swapped(b: BuildingModel, m: Map<u16, u16>) -> BuildingModel {
    let item = b.header.item_id;
    if m.contains_key(item) && m[item] != item {
        BuildingModel {
            header: BuildingHeader {
                item_id: m[item],
                model_index: building_kind(m[item])->Some_0.1,
                ..b.header
            },
            param: b.param,
        }
    } else {
        b
    }
}

pub open spec fn buildings_swappable(bp: BlueprintModel, m: Map<u16, u16>) -> bool {
    forall|i: int|
        0 <= i < bp.data.buildings.len() ==> swap_allowed(
            m,
            (#[trigger] bp.data.buildings[i]).header.item_id,
        )
}

pub open spec fn buildings_swapped(bp: BlueprintModel, m: Map<u16, u16>) -> BlueprintModel {
    BlueprintModel {
        data: DataModel {
            buildings: bp.data.buildings.map_values(|b: BuildingModel| building_swapped(b, m)),
            ..bp.data
        },
        ..bp
    }
}

/// The recipe that `replace_both` gives `r`: where `r` is the default recipe
/// of a replaced item whose replacement has a default recipe, that recipe.
pub open spec fn paired_recipe(m: Map<u16, u16>, r: u16) -> u16 {
    match recipe_item(r) {
        Some(from) => if m.contains_key(from) && default_recipe(m[from]) is Some {
            default_recipe(m[from])->Some_0
        } else {
            r
        },
        None => r,
    }
}

pub(crate) fn paired_recipe_exec(m: &HashMap<u16, u16>, r: u16) -> (res: u16)
    ensures
        res == paired_recipe(m@, r),
{
    match item_for_recipe(r) {
        Some(from) => match m.get(&from) {
            Some(to) => match recipe_for_item(*to) {
                Some(r2) => r2,
                None => r,
            },
            None => r,
        },
        None => r,
    }
}

/// The number of buildings of `item`.
pub open spec fn item_count(bs: Seq<BuildingModel>, item: u16) -> nat
    decreases bs.len(),
{
    if bs.len() == 0 {
        0
    } else {
        item_count(bs.drop_last(), item) + if bs.last().header.item_id == item {
            1nat
        } else {
            0nat
        }
    }
}

impl Blueprint {
    /// Replaces buildings by others of the same family; a new building takes
    /// its default model. Fails, changing nothing, where a replacement would
    /// cross families.
    pub fn replace_building(&mut self, map: &HashMap<u16, u16>) -> (r: Result<(), BlueprintError>)
        ensures
            (r is Ok) <==> buildings_swappable(old(self)@, map@),
            r is Ok ==> final(self)@ == buildings_swapped(old(self)@, map@),
            r matches Err(e) ==> ({
                &&& final(self)@ == old(self)@
                &&& e matches BlueprintError::IncompatibleReplacement { from, to }
                &&& map@.contains_key(from) && map@[from] == to && !swap_allowed(map@, from)
            }),
    {
        let n = self.data.buildings.len();
        let mut out: Vec<Building> = Vec::new();
        let mut i: usize = 0;
        while i < n
            invariant
                i <= n,
                n == self.data.buildings@.len(),
                out@.len() == i,
                forall|k: int| 0 <= k < i ==> swap_allowed(map@, #[trigger] self.data.buildings@[k].header.item_id),
                forall|k: int|
                    0 <= k < i ==> (#[trigger] out@[k])@ == building_swapped(self.data.buildings@[k]@, map@),
            decreases n - i,
        {
            let b = &self.data.buildings[i];
            let from = b.header.item_id;
            let mut header = b.header;
            match map.get(&from) {
                Some(to) => {
                    let to = *to;
                    if to != from {
                        let ok = match (kind_of_building(from), kind_of_building(to)) {
                            (Some(a), Some(c)) => {
                                if a.0 == c.0 {
                                    header.item_id = to;
                                    header.model_index = c.1;
                                    true
                                } else {
                                    false
                                }
                            },
                            _ => false,
                        };
                        if !ok {
                            proof {
                                assert(!swap_allowed(map@, from));
                                assert(self@.data.buildings[i as int].header.item_id == from);
                            }
                            return Err(BlueprintError::IncompatibleReplacement { from, to });
                        }
                    }
                },
                None => {},
            }
            out.push(Building { header, param: copy_param(&b.param) });
            i += 1;
        }
        let ghost before = self@;
        self.data.buildings = out;
        assert(self@.data.buildings =~= buildings_swapped(before, map@).data.buildings);
        assert(self@ =~= buildings_swapped(before, map@));
        Ok(())
    }

    /// Replaces items as `replace_item` does, and the default recipe of each
    /// replaced item by that of its replacement.
    pub fn replace_both(&mut self, map: &HashMap<u16, u16>)
        ensures
            final(self)@ == recipes_replaced(
                items_replaced(old(self)@, map@),
                |r: u16| paired_recipe(map@, r),
            ),
    {
        self.replace_item(map);
        let n = self.data.buildings.len();
        let mut out: Vec<Building> = Vec::new();
        let mut i: usize = 0;
        while i < n
            invariant
                i <= n,
                n == self.data.buildings@.len(),
                out@.len() == i,
                forall|k: int|
                    0 <= k < i ==> (#[trigger] out@[k])@ == (BuildingModel {
                        header: BuildingHeader {
                            recipe_id: paired_recipe(map@, self.data.buildings@[k].header.recipe_id),
                            ..self.data.buildings@[k].header
                        },
                        param: self.data.buildings@[k]@.param,
                    }),
            decreases n - i,
        {
            let b = &self.data.buildings[i];
            let header = BuildingHeader { recipe_id: paired_recipe_exec(map, b.header.recipe_id), ..b.header };
            out.push(Building { header, param: copy_param(&b.param) });
            i += 1;
        }
        let ghost before = self@;
        self.data.buildings = out;
        assert(self@.data.buildings =~= recipes_replaced(before, |r: u16| paired_recipe(map@, r)).data.buildings);
        assert(self@ =~= recipes_replaced(before, |r: u16| paired_recipe(map@, r)));
    }

    /// The number of buildings of `item`.
    pub fn building_count(&self, item: u16) -> (r: usize)
        ensures
            r == item_count(self@.data.buildings, item),
    {
        let n = self.data.buildings.len();
        let mut c: usize = 0;
        let mut i: usize = 0;
        while i < n
            invariant
                i <= n,
                n == self.data.buildings@.len(),
                c <= i,
                c == item_count(self@.data.buildings.subrange(0, i as int), item),
            decreases n - i,
        {
            let ghost pre = self@.data.buildings.subrange(0, i as int);
            let ghost post = self@.data.buildings.subrange(0, i + 1);
            assert(post.drop_last() =~= pre);
            if self.data.buildings[i].header.item_id == item {
                c += 1;
            }
            i += 1;
        }
        assert(self@.data.buildings.subrange(0, n as int) =~= self@.data.buildings);
        c
    }
}

/// Counts by item, in increasing item order: each item of a building once,
/// with the number of its buildings.
pub open spec fn counts_exact(bs: Seq<BuildingModel>, r: Seq<(u16, usize)>) -> bool {
    &&& forall|k: int| 0 <= k < r.len() ==> (#[trigger] r[k]).1 == item_count(bs, r[k].0) && r[k].1 > 0
    &&& forall|j: int, k: int| 0 <= j < k < r.len() ==> (#[trigger] r[j]).0 < (#[trigger] r[k]).0
    &&& forall|id: u16| item_count(bs, id) > 0 ==> exists|k: int| 0 <= k < r.len() && (#[trigger] r[k]).0 == id
}

proof fn lemma_item_count_bound(bs: Seq<BuildingModel>, id: u16)
    ensures
        item_count(bs, id) <= bs.len(),
    decreases bs.len(),
{
    if bs.len() > 0 {
        lemma_item_count_bound(bs.drop_last(), id);
    }
}

impl Blueprint {
    /// The number of buildings of each item that occurs, by increasing item.
    pub fn building_counts(&self) -> (r: Vec<(u16, usize)>)
        ensures
            counts_exact(self@.data.buildings, r@),
    {
        let ghost bs = self@.data.buildings;
        let n = self.data.buildings.len();
        let mut r: Vec<(u16, usize)> = Vec::new();
        let mut i: usize = 0;
        while i < n
            invariant
                i <= n,
                n == bs.len(),
                bs == self@.data.buildings,
                counts_exact(bs.subrange(0, i as int), r@),
            decreases n - i,
        {
            let ghost pre = bs.subrange(0, i as int);
            let ghost post = bs.subrange(0, i + 1);
            assert(post.drop_last() =~= pre);
            let id = self.data.buildings[i].header.item_id;
            assert(post.last().header.item_id == id);
            let mut p: usize = 0;
            while p < r.len() && r[p].0 < id
                invariant
                    p <= r@.len(),
                    forall|k: int| 0 <= k < p ==> (#[trigger] r@[k]).0 < id,
                decreases r@.len() - p,
            {
                p += 1;
            }
            proof {
                lemma_item_count_bound(pre, id);
            }
            let ghost old_r = r@;
            if p < r.len() && r[p].0 == id {
                let (_, c) = r[p];
                assert(c == item_count(pre, id));
                r.set(p, (id, c + 1));
                proof {
                    assert forall|k: int| 0 <= k < r@.len() implies (#[trigger] r@[k]).1 == item_count(
                        post,
                        r@[k].0,
                    ) && r@[k].1 > 0 by {
                        if k != p {
                            assert(r@[k] == old_r[k]);
                            assert(old_r[k].0 != id) by {
                                if k < p {
                                } else {
                                    assert(old_r[p as int].0 < old_r[k].0);
                                }
                            }
                        }
                    }
                    assert forall|x: u16| item_count(post, x) > 0 implies exists|k: int|
                        0 <= k < r@.len() && (#[trigger] r@[k]).0 == x by {
                        if x == id {
                            assert(r@[p as int].0 == x);
                        } else {
                            assert(item_count(post, x) == item_count(pre, x));
                            let k = choose|k: int| 0 <= k < old_r.len() && (#[trigger] old_r[k]).0 == x;
                            assert(r@[k].0 == x);
                        }
                    }
                }
            } else {
                proof {
                    assert forall|k: int| 0 <= k < old_r.len() implies (#[trigger] old_r[k]).0 != id by {
                        if k >= p {
                            if k > p {
                                assert(old_r[p as int].0 < old_r[k].0);
                            }
                        }
                    }
                    assert(item_count(pre, id) == 0);
                }
                r.insert(p, (id, 1));
                proof {
                    assert forall|k: int| 0 <= k < r@.len() implies (#[trigger] r@[k]).1 == item_count(
                        post,
                        r@[k].0,
                    ) && r@[k].1 > 0 by {
                        if k < p {
                            assert(r@[k] == old_r[k]);
                        } else if k > p {
                            assert(r@[k] == old_r[k - 1]);
                        }
                    }
                    assert forall|j: int, k: int| 0 <= j < k < r@.len() implies (#[trigger] r@[j]).0 < (
                    #[trigger] r@[k]).0 by {
                        if j < p && k > p {
                            assert(r@[k] == old_r[k - 1]);
                            assert(r@[j] == old_r[j]);
                            assert(old_r[k - 1].0 >= id);
                        } else if j < p && k == p {
                            assert(r@[j] == old_r[j]);
                        } else if j == p {
                            assert(r@[k] == old_r[k - 1]);
                        } else if j > p {
                            assert(r@[k] == old_r[k - 1]);
                            assert(r@[j] == old_r[j - 1]);
                        } else {
                            assert(r@[k] == old_r[k]);
                            assert(r@[j] == old_r[j]);
                        }
                    }
                    assert forall|x: u16| item_count(post, x) > 0 implies exists|k: int|
                        0 <= k < r@.len() && (#[trigger] r@[k]).0 == x by {
                        if x == id {
                            assert(r@[p as int].0 == x);
                        } else {
                            assert(item_count(post, x) == item_count(pre, x));
                            let k = choose|k: int| 0 <= k < old_r.len() && (#[trigger] old_r[k]).0 == x;
                            if k < p {
                                assert(r@[k].0 == x);
                            } else {
                                assert(r@[k + 1].0 == x);
                            }
                        }
                    }
                }
            }
            i += 1;
        }
        assert(bs.subrange(0, n as int) =~= bs);
        r
    }
}

} // verus!
