//! Build tools, zone tags, and the city-size presets of the main menu.

use vstd::prelude::*;

use crate::grid::ZoneType;

verus! {

/// Zone painted by a zone tool.
#[derive(Clone, Copy, Debug, PartialEq, Eq, Structural)]
pub enum ZoneTag {
    Residential,
    Office,
    Shop,
}

/// The active build tool. `Camera` is no build tool at all: clicks select
/// and inspect instead of building.
#[derive(Clone, Copy, Debug, PartialEq, Eq, Structural)]
pub enum ActiveTool {
    Camera,
    Road,
    Highway2x4,
    Highway2x8,
    Zone(ZoneTag),
}

pub open spec fn spec_as_zone(t: ZoneTag) -> ZoneType {
    match t {
        ZoneTag::Residential => ZoneType::Residential,
        ZoneTag::Office => ZoneType::Office,
        ZoneTag::Shop => ZoneType::Shop,
    }
}

impl ZoneTag {
    /// The zone type this tag paints.
    pub fn as_zone(self) -> (z: ZoneType)
        ensures
            z == spec_as_zone(self),
    {
        match self {
            ZoneTag::Residential => ZoneType::Residential,
            ZoneTag::Office => ZoneType::Office,
            ZoneTag::Shop => ZoneType::Shop,
        }
    }
}

/// Size of the generated cities and initial population.
#[derive(Clone, Copy, Debug, PartialEq, Eq, Structural)]
pub struct MenuSettings {
    pub grid_x: u32,
    pub grid_y: u32,
    pub population: u32,
}

/// The city-size buttons of the main menu.
#[derive(Clone, Copy, Debug, PartialEq, Eq, Structural)]
pub enum MenuAction {
    Small,
    Medium,
    Large,
}

impl MenuSettings {
    /// 4x4 blocks per city and 500000 people.
    pub fn new() -> (s: MenuSettings)
        ensures
            s == (MenuSettings { grid_x: 4, grid_y: 4, population: 500000 }),
    {
        MenuSettings { grid_x: 4, grid_y: 4, population: 500000 }
    }

    /// Applies a city-size preset: small 3x3 blocks and 200000 people,
    /// medium 10x8 blocks and 500000 people, large 25x20 blocks and 1000000
    /// people.
    pub fn apply(&mut self, action: MenuAction)
        ensures
            *final(self) == (match action {
                MenuAction::Small => MenuSettings { grid_x: 3, grid_y: 3, population: 200000 },
                MenuAction::Medium => MenuSettings { grid_x: 10, grid_y: 8, population: 500000 },
                MenuAction::Large => MenuSettings { grid_x: 25, grid_y: 20, population: 1000000 },
            }),
    {
        match action {
            MenuAction::Small => {
                self.grid_x = 3;
                self.grid_y = 3;
                self.population = 200000;
            },
            MenuAction::Medium => {
                self.grid_x = 10;
                self.grid_y = 8;
                self.population = 500000;
            },
            MenuAction::Large => {
                self.grid_x = 25;
                self.grid_y = 20;
                self.population = 1000000;
            },
        }
    }
}

} // verus!
