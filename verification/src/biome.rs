//! The biome profile catalog: named generation parameters.
//!
//! A profile bundles the tile-type ratios used when seeds are drawn and the
//! switches that decide which refinement passes run.  Unknown names fall
//! back to a neutral uniform profile; the lookup never fails.

use vstd::prelude::*;
use crate::rng::rand_below;
use crate::tile::TileKind;

verus! {

/// Share of the seed budget given to each tile type, in percent.  The
/// shares need not sum to one hundred; leftover mass is simply unclaimed.
#[derive(Clone, Copy, Debug, PartialEq, Eq, Structural)]
pub struct TileChance {
    pub floor: u32,
    pub wall: u32,
    pub water: u32,
    pub sand: u32,
    pub tree: u32,
}

/// Which refinement passes a generation run applies.
#[derive(Clone, Copy, Debug, PartialEq, Eq, Structural)]
pub struct BiomeControl {
    pub water_edges: bool,
    pub outer_wall: bool,
    pub sparse_trees: bool,
    pub roads: bool,
    pub exit_roads: bool,
    pub exits: bool,
}

/// A named generation profile.
#[derive(Clone, Debug)]
pub struct Biome {
    pub biome_name: String,
    pub tile_chance: TileChance,
    pub biome_control: BiomeControl,
}

/// The seed shares of each named biome; any other name gets the neutral
/// third-third-third fallback.
pub open spec fn spec_tile_chance(name: Seq<char>) -> TileChance {
    if name == "Cave"@ {
        TileChance { floor: 30, wall: 50, water: 20, sand: 0, tree: 0 }
    } else if name == "Ocean"@ {
        TileChance { floor: 0, wall: 5, water: 70, sand: 15, tree: 10 }
    } else if name == "Underlake"@ {
        TileChance { floor: 20, wall: 20, water: 60, sand: 0, tree: 0 }
    } else if name == "Desert"@ {
        TileChance { floor: 0, wall: 20, water: 15, sand: 50, tree: 15 }
    } else if name == "Forest"@ {
        TileChance { floor: 0, wall: 20, water: 20, sand: 20, tree: 40 }
    } else {
        TileChance { floor: 33, wall: 33, water: 33, sand: 0, tree: 0 }
    }
}

/// The pass switches of each named biome.  Only `Ocean` and `Desert` skip
/// the outer wall; among the named biomes, only those that place trees
/// thin them.  An unknown name gets every refinement pass switched on.
pub open spec fn spec_biome_control(name: Seq<char>) -> BiomeControl {
    if name == "Cave"@ {
        BiomeControl {
            water_edges: true,
            outer_wall: true,
            sparse_trees: false,
            roads: false,
            exit_roads: false,
            exits: false,
        }
    } else if name == "Ocean"@ {
        BiomeControl {
            water_edges: true,
            outer_wall: false,
            sparse_trees: true,
            roads: false,
            exit_roads: false,
            exits: false,
        }
    } else if name == "Underlake"@ {
        BiomeControl {
            water_edges: true,
            outer_wall: true,
            sparse_trees: false,
            roads: false,
            exit_roads: false,
            exits: false,
        }
    } else if name == "Desert"@ {
        BiomeControl {
            water_edges: true,
            outer_wall: false,
            sparse_trees: true,
            roads: false,
            exit_roads: false,
            exits: false,
        }
    } else if name == "Forest"@ {
        BiomeControl {
            water_edges: true,
            outer_wall: true,
            sparse_trees: true,
            roads: false,
            exit_roads: false,
            exits: false,
        }
    } else {
        BiomeControl {
            water_edges: true,
            outer_wall: true,
            sparse_trees: true,
            roads: true,
            exit_roads: false,
            exits: false,
        }
    }
}

/// The floor type a biome falls back to when a pass clears a tile.
pub open spec fn spec_default_floor(name: Seq<char>) -> TileKind {
    if name == "Cave"@ {
        TileKind::Floor
    } else if name == "Ocean"@ {
        TileKind::Sand
    } else if name == "Underlake"@ {
        TileKind::Floor
    } else if name == "Desert"@ {
        TileKind::Sand
    } else if name == "Forest"@ {
        TileKind::Sand
    } else {
        TileKind::Floor
    }
}

/// The wall type a biome builds its border from.
pub open spec fn spec_default_wall(name: Seq<char>) -> TileKind {
    if name == "Forest"@ {
        TileKind::Tree
    } else {
        TileKind::Wall
    }
}

/// Relies on `str`'s `==`: it compares the characters of the two strings.
#[verifier::external_body]
pub(crate) fn str_eq(a: &str, b: &str) -> (r: bool)
    ensures
        r == (a@ == b@),
{
    a == b
}

impl Biome {
    /// Looks the name up in the catalog.  Total: an unrecognized name gets
    /// the neutral fallback profile, never an error.
    pub fn new(biome_name: String) -> (b: Biome)
        ensures
            b.biome_name@ == biome_name@,
            b.tile_chance == spec_tile_chance(biome_name@),
            b.biome_control == spec_biome_control(biome_name@),
    {
        let tile_chance: TileChance;
        let biome_control: BiomeControl;
        if str_eq(biome_name.as_str(), "Cave") {
            tile_chance = TileChance { floor: 30, wall: 50, water: 20, sand: 0, tree: 0 };
            biome_control = BiomeControl {
                water_edges: true,
                outer_wall: true,
                sparse_trees: false,
                roads: false,
                exit_roads: false,
                exits: false,
            };
        } else if str_eq(biome_name.as_str(), "Ocean") {
            tile_chance = TileChance { floor: 0, wall: 5, water: 70, sand: 15, tree: 10 };
            biome_control = BiomeControl {
                water_edges: true,
                outer_wall: false,
                sparse_trees: true,
                roads: false,
                exit_roads: false,
                exits: false,
            };
        } else if str_eq(biome_name.as_str(), "Underlake") {
            tile_chance = TileChance { floor: 20, wall: 20, water: 60, sand: 0, tree: 0 };
            biome_control = BiomeControl {
                water_edges: true,
                outer_wall: true,
                sparse_trees: false,
                roads: false,
                exit_roads: false,
                exits: false,
            };
        } else if str_eq(biome_name.as_str(), "Desert") {
            tile_chance = TileChance { floor: 0, wall: 20, water: 15, sand: 50, tree: 15 };
            biome_control = BiomeControl {
                water_edges: true,
                outer_wall: false,
                sparse_trees: true,
                roads: false,
                exit_roads: false,
                exits: false,
            };
        } else if str_eq(biome_name.as_str(), "Forest") {
            tile_chance = TileChance { floor: 0, wall: 20, water: 20, sand: 20, tree: 40 };
            biome_control = BiomeControl {
                water_edges: true,
                outer_wall: true,
                sparse_trees: true,
                roads: false,
                exit_roads: false,
                exits: false,
            };
        } else {
            tile_chance = TileChance { floor: 33, wall: 33, water: 33, sand: 0, tree: 0 };
            biome_control = BiomeControl {
                water_edges: true,
                outer_wall: true,
                sparse_trees: true,
                roads: true,
                exit_roads: false,
                exits: false,
            };
        }
        Biome { biome_name, tile_chance, biome_control }
    }

    /// The biome's default floor type.
    pub fn default_floor(&self) -> (k: TileKind)
        ensures
            k == spec_default_floor(self.biome_name@),
    {
        if str_eq(self.biome_name.as_str(), "Cave") {
            TileKind::Floor
        } else if str_eq(self.biome_name.as_str(), "Ocean") {
            TileKind::Sand
        } else if str_eq(self.biome_name.as_str(), "Underlake") {
            TileKind::Floor
        } else if str_eq(self.biome_name.as_str(), "Desert") {
            TileKind::Sand
        } else if str_eq(self.biome_name.as_str(), "Forest") {
            TileKind::Sand
        } else {
            TileKind::Floor
        }
    }

    /// The biome's default wall type.
    pub fn default_wall(&self) -> (k: TileKind)
        ensures
            k == spec_default_wall(self.biome_name@),
    {
        if str_eq(self.biome_name.as_str(), "Forest") {
            TileKind::Tree
        } else {
            TileKind::Wall
        }
    }
}

/// Picks one of the five catalog names at random.
pub fn random_biome() -> (name: String)
    ensures
        name@ == "Cave"@ || name@ == "Ocean"@ || name@ == "Underlake"@ || name@ == "Desert"@
            || name@ == "Forest"@,
{
    let draw = rand_below(5);
    if draw == 0 {
        String::from_str("Cave")
    } else if draw == 1 {
        String::from_str("Ocean")
    } else if draw == 2 {
        String::from_str("Underlake")
    } else if draw == 3 {
        String::from_str("Desert")
    } else {
        String::from_str("Forest")
    }
}

} // verus!
