//! Fuel needed to launch modules of a given mass.
use vstd::prelude::*;

verus! {

/// Fuel for a mass alone: a third of it, rounded down, less two.
pub open spec fn fuel_of(mass: int) -> int {
    mass / 3 - 2
}

/// Fuel for a mass, counting the fuel that the fuel itself needs, until a
/// step needs none.
pub open spec fn total_fuel_of(mass: int) -> int
    decreases mass,
{
    if mass <= 0 || fuel_of(mass) < 1 {
        0
    } else {
        fuel_of(mass) + total_fuel_of(fuel_of(mass))
    }
}

proof fn lemma_total_fuel_bound(mass: int)
    requires
        mass >= 0,
    ensures
        0 <= total_fuel_of(mass) <= mass,
    decreases mass,
{
    if mass > 0 && fuel_of(mass) >= 1 {
        lemma_total_fuel_bound(fuel_of(mass));
    }
}

pub fn calc_fuel(mass: u64) -> (r: i64)
    ensures
        r == fuel_of(mass as int),
{
    (mass / 3) as i64 - 2
}

pub fn calc_total_fuel(mass: u64) -> (r: u64)
    ensures
        r == total_fuel_of(mass as int),
{
    let mut m = mass;
    let mut total_fuel: u64 = 0;
    proof {
        lemma_total_fuel_bound(mass as int);
    }
    loop
        invariant
            total_fuel + total_fuel_of(m as int) == total_fuel_of(mass as int),
            total_fuel_of(mass as int) <= mass,
        decreases m,
    {
        let fuel = calc_fuel(m);
        if fuel < 1 {
            return total_fuel;
        }
        proof {
            lemma_total_fuel_bound(fuel as int);
        }
        m = fuel as u64;
        total_fuel += m;
    }
}

} // verus!
