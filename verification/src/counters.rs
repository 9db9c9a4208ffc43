//! HUD tallies: building counts from the CPU lists and population and tax
//! totals read back from the GPU.

use vstd::prelude::*;

use crate::buildings::{Building, BuildingData};
use crate::grid::ZoneType;
use crate::roads::RoadData;

verus! {

/// The numbers shown on the HUD.
#[derive(Clone, Copy, Debug, PartialEq, Eq, Structural)]
pub struct SimCounters {
    pub people: u32,
    pub cars: u32,
    pub res_occupants: u32,
    pub office_occupants: u32,
    pub shop_occupants: u32,
    pub residential: u32,
    pub offices: u32,
    pub shops: u32,
    pub road_segments: u32,
    pub destroyed_buildings: u32,
    pub bankrupt: u32,
    pub tax_income_total: u32,
    pub tax_rent_total: u32,
    pub tax_consumption_total: u32,
    pub money_total: u32,
}

/// The statistics block the GPU simulation writes.
#[derive(Clone, Copy, Debug, PartialEq, Eq, Structural)]
pub struct GpuStats {
    pub people_count: u32,
    pub home_count: u32,
    pub work_count: u32,
    pub shop_count: u32,
    pub travelling_count: u32,
    pub total_money: u32,
    pub residential_occupancy: u32,
    pub office_occupancy: u32,
    pub shop_occupancy: u32,
    pub residential_count: u32,
    pub office_count: u32,
    pub shop_count_b: u32,
    pub residential_assigned: u32,
    pub office_assigned: u32,
    pub bankrupt_count: u32,
    pub active_car_count: u32,
    pub tax_income_total: u32,
    pub tax_rent_total: u32,
    pub tax_consumption_total: u32,
    pub live_car_count: u32,
}

/// Number of buildings among `items` with nonzero capacity and type `t`.
pub open spec fn count_active(items: Seq<Building>, t: ZoneType) -> nat
    decreases items.len(),
{
    if items.len() == 0 {
        0
    } else {
        count_active(items.drop_last(), t) + (if items.last().capacity > 0 && items.last().btype == t {
            1nat
        } else {
            0nat
        })
    }
}

/// Number of abandoned buildings (capacity 0) among `items`.
pub open spec fn count_abandoned(items: Seq<Building>) -> nat
    decreases items.len(),
{
    if items.len() == 0 {
        0
    } else {
        count_abandoned(items.drop_last()) + (if items.last().capacity == 0 {
            1nat
        } else {
            0nat
        })
    }
}

/// Every building is either active with one of the three types, or
/// abandoned.
pub proof fn lemma_buildings_partition(items: Seq<Building>)
    ensures
        count_active(items, ZoneType::Residential) + count_active(items, ZoneType::Office)
            + count_active(items, ZoneType::Shop) + count_abandoned(items) == items.len(),
    decreases items.len(),
{
    if items.len() > 0 {
        lemma_buildings_partition(items.drop_last());
    }
}

impl SimCounters {
    /// All counters at zero.
    pub fn new() -> (c: SimCounters)
        ensures
            c == (SimCounters {
                people: 0,
                cars: 0,
                res_occupants: 0,
                office_occupants: 0,
                shop_occupants: 0,
                residential: 0,
                offices: 0,
                shops: 0,
                road_segments: 0,
                destroyed_buildings: 0,
                bankrupt: 0,
                tax_income_total: 0,
                tax_rent_total: 0,
                tax_consumption_total: 0,
                money_total: 0,
            }),
    {
        SimCounters {
            people: 0,
            cars: 0,
            res_occupants: 0,
            office_occupants: 0,
            shop_occupants: 0,
            residential: 0,
            offices: 0,
            shops: 0,
            road_segments: 0,
            destroyed_buildings: 0,
            bankrupt: 0,
            tax_income_total: 0,
            tax_rent_total: 0,
            tax_consumption_total: 0,
            money_total: 0,
        }
    }

    /// Copies the GPU statistics into the HUD counters.
    pub fn apply_stats(&mut self, stats: &GpuStats)
        ensures
            *final(self) == (SimCounters {
                people: stats.people_count,
                cars: stats.live_car_count,
                bankrupt: stats.bankrupt_count,
                res_occupants: stats.home_count,
                office_occupants: stats.work_count,
                shop_occupants: stats.shop_count,
                tax_income_total: stats.tax_income_total,
                tax_rent_total: stats.tax_rent_total,
                tax_consumption_total: stats.tax_consumption_total,
                money_total: stats.total_money,
                ..*old(self)
            }),
    {
        self.people = stats.people_count;
        self.cars = stats.live_car_count;
        self.bankrupt = stats.bankrupt_count;
        self.res_occupants = stats.home_count;
        self.office_occupants = stats.work_count;
        self.shop_occupants = stats.shop_count;
        self.tax_income_total = stats.tax_income_total;
        self.tax_rent_total = stats.tax_rent_total;
        self.tax_consumption_total = stats.tax_consumption_total;
        self.money_total = stats.total_money;
    }

    /// Total tax collected (the money display).
    pub fn tax_total(&self) -> (t: u32)
        requires
            self.tax_income_total + self.tax_rent_total + self.tax_consumption_total <= u32::MAX,
        ensures
            t == self.tax_income_total + self.tax_rent_total + self.tax_consumption_total,
    {
        self.tax_income_total + self.tax_rent_total + self.tax_consumption_total
    }
}

/// Counts the active buildings of each type.
pub fn count_active_buildings(items: &Vec<Building>) -> (c: (u32, u32, u32))
    requires
        items@.len() <= u32::MAX,
    ensures
        c.0 == count_active(items@, ZoneType::Residential),
        c.1 == count_active(items@, ZoneType::Office),
        c.2 == count_active(items@, ZoneType::Shop),
{
    let n = items.len();
    let mut res: u32 = 0;
    let mut off: u32 = 0;
    let mut shop: u32 = 0;
    let mut i: usize = 0;
    while i < n
        invariant
            n == items@.len(),
            n <= u32::MAX,
            i <= n,
            res == count_active(items@.take(i as int), ZoneType::Residential),
            off == count_active(items@.take(i as int), ZoneType::Office),
            shop == count_active(items@.take(i as int), ZoneType::Shop),
            res + off + shop <= i,
        decreases n - i,
    {
        proof {
            assert(items@.take(i as int + 1).drop_last() =~= items@.take(i as int));
        }
        let b = items[i];
        if b.capacity > 0 {
            match b.btype {
                ZoneType::Residential => {
                    res = res + 1;
                },
                ZoneType::Office => {
                    off = off + 1;
                },
                ZoneType::Shop => {
                    shop = shop + 1;
                },
            }
        }
        i = i + 1;
    }
    proof {
        assert(items@.take(n as int) =~= items@);
    }
    (res, off, shop)
}

/// Counts the abandoned buildings (capacity 0).
pub fn count_abandoned_buildings(items: &Vec<Building>) -> (c: u32)
    requires
        items@.len() <= u32::MAX,
    ensures
        c == count_abandoned(items@),
{
    let n = items.len();
    let mut c: u32 = 0;
    let mut i: usize = 0;
    while i < n
        invariant
            n == items@.len(),
            n <= u32::MAX,
            i <= n,
            c == count_abandoned(items@.take(i as int)),
            c <= i,
        decreases n - i,
    {
        proof {
            assert(items@.take(i as int + 1).drop_last() =~= items@.take(i as int));
        }
        if items[i].capacity == 0 {
            c = c + 1;
        }
        i = i + 1;
    }
    proof {
        assert(items@.take(n as int) =~= items@);
    }
    c
}

/// Refreshes the road and building tallies when roads or buildings changed
/// since the last frame; otherwise leaves the counters alone.
pub fn update_counters_system(
    roads_changed: bool,
    buildings_changed: bool,
    roads: &RoadData,
    buildings: &BuildingData,
    counters: &mut SimCounters,
)
    requires
        buildings.items@.len() <= u32::MAX,
    ensures
        !roads_changed && !buildings_changed ==> *final(counters) == *old(counters),
        roads_changed || buildings_changed ==> *final(counters) == (SimCounters {
            road_segments: roads.segments@.len() as u32,
            residential: count_active(buildings.items@, ZoneType::Residential) as u32,
            offices: count_active(buildings.items@, ZoneType::Office) as u32,
            shops: count_active(buildings.items@, ZoneType::Shop) as u32,
            ..*old(counters)
        }),
{
    if !roads_changed && !buildings_changed {
        return;
    }
    counters.road_segments = roads.segments.len() as u32;
    let (res, off, shop) = count_active_buildings(&buildings.items);
    counters.residential = res;
    counters.offices = off;
    counters.shops = shop;
}

/// Number of `Travelling` activity codes (code 0) among `codes`.
pub open spec fn count_travelling(codes: Seq<u32>) -> nat
    decreases codes.len(),
{
    if codes.len() == 0 {
        0
    } else {
        count_travelling(codes.drop_last()) + (if codes.last() == 0 {
            1nat
        } else {
            0nat
        })
    }
}

/// The telemetry tallies: how many of the live people are on the road (their
/// activity code is `Travelling`) and how many buildings are abandoned.
pub fn telemetry_counts(activity_codes: &Vec<u32>, items: &Vec<Building>) -> (c: (u32, u32))
    requires
        activity_codes@.len() <= u32::MAX,
        items@.len() <= u32::MAX,
    ensures
        c.0 == count_travelling(activity_codes@),
        c.1 == count_abandoned(items@),
{
    let n = activity_codes.len();
    let mut cars: u32 = 0;
    let mut i: usize = 0;
    while i < n
        invariant
            n == activity_codes@.len(),
            n <= u32::MAX,
            i <= n,
            cars == count_travelling(activity_codes@.take(i as int)),
            cars <= i,
        decreases n - i,
    {
        proof {
            assert(activity_codes@.take(i as int + 1).drop_last() =~= activity_codes@.take(i as int));
        }
        if activity_codes[i] == 0 {
            cars = cars + 1;
        }
        i = i + 1;
    }
    proof {
        assert(activity_codes@.take(n as int) =~= activity_codes@);
    }
    (cars, count_abandoned_buildings(items))
}

} // verus!
