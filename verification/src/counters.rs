//! Call counters of the layout phases.
//!
//! The counts live in a [`Counters`] value that the caller owns and hands
//! to the phases; each counter wraps around at `u32::MAX + 1`, as an atomic
//! `fetch_add` does.
use vstd::prelude::*;

verus! {

/// How often each phase of the layout ran.
#[derive(Clone, Copy, Debug, PartialEq, Eq, Structural)]
pub struct Counters {
    pub rank: u32,
    pub order: u32,
    pub position: u32,
    pub cross_count: u32,
    pub init_order: u32,
    pub bk: u32,
}

impl Counters {
    /// All counters at zero.
    pub fn new() -> (c: Counters)
        ensures
            c == (Counters { rank: 0, order: 0, position: 0, cross_count: 0, init_order: 0, bk: 0 }),
    {
        Counters { rank: 0, order: 0, position: 0, cross_count: 0, init_order: 0, bk: 0 }
    }
}

/// `x + 1`, wrapping to 0 after `u32::MAX`.
pub open spec fn bump(x: u32) -> u32 {
    if x == u32::MAX { 0 } else { (x + 1) as u32 }
}

/// Sets every counter to zero.
pub fn reset_counters(counters: &mut Counters)
    ensures
        *final(counters) == (Counters { rank: 0, order: 0, position: 0, cross_count: 0, init_order: 0, bk: 0 }),
{
    *counters = Counters::new();
}

/// Counts a run of the ranking phase.
pub fn increment_rank(counters: &mut Counters)
    ensures
        *final(counters) == (Counters { rank: bump(old(counters).rank), ..*old(counters) }),
{
    counters.rank = counters.rank.wrapping_add(1);
}

/// Counts a run of the ordering phase.
pub fn increment_order(counters: &mut Counters)
    ensures
        *final(counters) == (Counters { order: bump(old(counters).order), ..*old(counters) }),
{
    counters.order = counters.order.wrapping_add(1);
}

/// Counts a run of the positioning phase.
pub fn increment_position(counters: &mut Counters)
    ensures
        *final(counters) == (Counters { position: bump(old(counters).position), ..*old(counters) }),
{
    counters.position = counters.position.wrapping_add(1);
}

/// Counts a crossing count.
pub fn increment_cross_count(counters: &mut Counters)
    ensures
        *final(counters) == (Counters { cross_count: bump(old(counters).cross_count), ..*old(counters) }),
{
    counters.cross_count = counters.cross_count.wrapping_add(1);
}

/// Counts a run of the initial ordering.
pub fn increment_init_order(counters: &mut Counters)
    ensures
        *final(counters) == (Counters { init_order: bump(old(counters).init_order), ..*old(counters) }),
{
    counters.init_order = counters.init_order.wrapping_add(1);
}

/// Counts a run of the Brandes-Köpf positioning.
pub fn increment_bk(counters: &mut Counters)
    ensures
        *final(counters) == (Counters { bk: bump(old(counters).bk), ..*old(counters) }),
{
    counters.bk = counters.bk.wrapping_add(1);
}

pub fn get_rank_count(counters: &Counters) -> (r: u32)
    ensures
        r == counters.rank,
{
    counters.rank
}

pub fn get_order_count(counters: &Counters) -> (r: u32)
    ensures
        r == counters.order,
{
    counters.order
}

pub fn get_position_count(counters: &Counters) -> (r: u32)
    ensures
        r == counters.position,
{
    counters.position
}

pub fn get_cross_count(counters: &Counters) -> (r: u32)
    ensures
        r == counters.cross_count,
{
    counters.cross_count
}

pub fn get_init_order_count(counters: &Counters) -> (r: u32)
    ensures
        r == counters.init_order,
{
    counters.init_order
}

pub fn get_bk_count(counters: &Counters) -> (r: u32)
    ensures
        r == counters.bk,
{
    counters.bk
}

/// All counts: rank, order, position, cross count, initial order, Brandes-Köpf.
pub fn get_all_counts(counters: &Counters) -> (r: (u32, u32, u32, u32, u32, u32))
    ensures
        r == (counters.rank, counters.order, counters.position, counters.cross_count,
            counters.init_order, counters.bk),
{
    (
        get_rank_count(counters),
        get_order_count(counters),
        get_position_count(counters),
        get_cross_count(counters),
        get_init_order_count(counters),
        get_bk_count(counters),
    )
}

} // verus!
