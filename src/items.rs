//! Item identifiers the codec and the edit engine need to tell apart.

use vstd::prelude::*;

verus! {

pub const CONVEYOR_BELT_MK1: u16 = 2001;
pub const CONVEYOR_BELT_MK2: u16 = 2002;
pub const CONVEYOR_BELT_MK3: u16 = 2003;
pub const SORTER_MK1: u16 = 2011;
pub const SORTER_MK2: u16 = 2012;
pub const SORTER_MK3: u16 = 2013;
pub const PLANETARY_LOGISTICS_STATION: u16 = 2103;
pub const INTERSTELLAR_LOGISTICS_STATION: u16 = 2104;
pub const ARC_SMELTER: u16 = 2302;
pub const ASSEMBLING_MACHINE_MK1: u16 = 2303;
pub const ASSEMBLING_MACHINE_MK2: u16 = 2304;
pub const ASSEMBLING_MACHINE_MK3: u16 = 2305;
pub const CHEMICAL_PLANT: u16 = 2309;
pub const PLANE_SMELTER: u16 = 2315;
pub const MATRIX_LAB: u16 = 2901;

/// Planetary and interstellar logistic stations.
pub open spec fn is_station(item: u16) -> bool {
    item == PLANETARY_LOGISTICS_STATION || item == INTERSTELLAR_LOGISTICS_STATION
}

pub open spec fn is_interstellar_station(item: u16) -> bool {
    item == INTERSTELLAR_LOGISTICS_STATION
}

pub open spec fn is_belt(item: u16) -> bool {
    CONVEYOR_BELT_MK1 <= item <= CONVEYOR_BELT_MK3
}

/// Storage entries at the head of a station's parameter block.
pub open spec fn storage_count(item: u16) -> nat {
    if is_interstellar_station(item) {
        5
    } else {
        3
    }
}

pub fn item_is_station(item: u16) -> (r: bool)
    ensures
        r == is_station(item),
{
    item == PLANETARY_LOGISTICS_STATION || item == INTERSTELLAR_LOGISTICS_STATION
}

pub fn item_is_interstellar_station(item: u16) -> (r: bool)
    ensures
        r == is_interstellar_station(item),
{
    item == INTERSTELLAR_LOGISTICS_STATION
}

pub fn item_is_belt(item: u16) -> (r: bool)
    ensures
        r == is_belt(item),
{
    CONVEYOR_BELT_MK1 <= item && item <= CONVEYOR_BELT_MK3
}

pub fn station_storage_count(item: u16) -> (r: usize)
    ensures
        r == storage_count(item),
{
    if item == INTERSTELLAR_LOGISTICS_STATION {
        5
    } else {
        3
    }
}

/// Families of buildings that may replace one another.
#[derive(Clone, Copy, Debug, PartialEq, Eq, Structural)]
pub enum Category {
    Belt,
    Sorter,
    Assembler,
    Smelter,
    ChemicalPlant,
    Lab,
}

/// Category and default model of the buildings that may be replaced.
pub open spec fn building_kind(item: u16) -> Option<(Category, u16)> {
    if item == CONVEYOR_BELT_MK1 {
        Some((Category::Belt, 35))
    } else if item == CONVEYOR_BELT_MK2 {
        Some((Category::Belt, 36))
    } else if item == CONVEYOR_BELT_MK3 {
        Some((Category::Belt, 37))
    } else if item == SORTER_MK1 {
        Some((Category::Sorter, 41))
    } else if item == SORTER_MK2 {
        Some((Category::Sorter, 42))
    } else if item == SORTER_MK3 {
        Some((Category::Sorter, 43))
    } else if item == ASSEMBLING_MACHINE_MK1 {
        Some((Category::Assembler, 65))
    } else if item == ASSEMBLING_MACHINE_MK2 {
        Some((Category::Assembler, 66))
    } else if item == ASSEMBLING_MACHINE_MK3 {
        Some((Category::Assembler, 67))
    } else if item == ARC_SMELTER {
        Some((Category::Smelter, 62))
    } else if item == PLANE_SMELTER {
        Some((Category::Smelter, 194))
    } else if item == CHEMICAL_PLANT {
        Some((Category::ChemicalPlant, 64))
    } else if item == MATRIX_LAB {
        Some((Category::Lab, 70))
    } else {
        None
    }
}

pub fn kind_of_building(item: u16) -> (r: Option<(Category, u16)>)
    ensures
        r == building_kind(item),
{
    if item == CONVEYOR_BELT_MK1 {
        Some((Category::Belt, 35))
    } else if item == CONVEYOR_BELT_MK2 {
        Some((Category::Belt, 36))
    } else if item == CONVEYOR_BELT_MK3 {
        Some((Category::Belt, 37))
    } else if item == SORTER_MK1 {
        Some((Category::Sorter, 41))
    } else if item == SORTER_MK2 {
        Some((Category::Sorter, 42))
    } else if item == SORTER_MK3 {
        Some((Category::Sorter, 43))
    } else if item == ASSEMBLING_MACHINE_MK1 {
        Some((Category::Assembler, 65))
    } else if item == ASSEMBLING_MACHINE_MK2 {
        Some((Category::Assembler, 66))
    } else if item == ASSEMBLING_MACHINE_MK3 {
        Some((Category::Assembler, 67))
    } else if item == ARC_SMELTER {
        Some((Category::Smelter, 62))
    } else if item == PLANE_SMELTER {
        Some((Category::Smelter, 194))
    } else if item == CHEMICAL_PLANT {
        Some((Category::ChemicalPlant, 64))
    } else if item == MATRIX_LAB {
        Some((Category::Lab, 70))
    } else {
        None
    }
}

/// The recipe that makes an item by default, where the item has one.
pub open spec fn default_recipe(item: u16) -> Option<u16> {
    if item == 1101 {
        Some(1u16)
    } else if item == 1102 {
        Some(2u16)
    } else if item == 1104 {
        Some(3u16)
    } else if item == 1108 {
        Some(4u16)
    } else if item == 1201 {
        Some(5u16)
    } else if item == 1202 {
        Some(6u16)
    } else {
        None
    }
}

pub fn recipe_for_item(item: u16) -> (r: Option<u16>)
    ensures
        r == default_recipe(item),
{
    if item == 1101 {
        Some(1)
    } else if item == 1102 {
        Some(2)
    } else if item == 1104 {
        Some(3)
    } else if item == 1108 {
        Some(4)
    } else if item == 1201 {
        Some(5)
    } else if item == 1202 {
        Some(6)
    } else {
        None
    }
}

/// The item a default recipe makes.
pub open spec fn recipe_item(recipe: u16) -> Option<u16> {
    if 1 <= recipe <= 6 {
        Some(
            if recipe == 1 {
                1101u16
            } else if recipe == 2 {
                1102u16
            } else if recipe == 3 {
                1104u16
            } else if recipe == 4 {
                1108u16
            } else if recipe == 5 {
                1201u16
            } else {
                1202u16
            },
        )
    } else {
        None
    }
}

pub fn item_for_recipe(recipe: u16) -> (r: Option<u16>)
    ensures
        r == recipe_item(recipe),
{
    if recipe == 1 {
        Some(1101)
    } else if recipe == 2 {
        Some(1102)
    } else if recipe == 3 {
        Some(1104)
    } else if recipe == 4 {
        Some(1108)
    } else if recipe == 5 {
        Some(1201)
    } else if recipe == 6 {
        Some(1202)
    } else {
        None
    }
}

} // verus!
