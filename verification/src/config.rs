//! Settings: city, notification thresholds, which notifications and sources are on.

use vstd::prelude::*;

verus! {

#[derive(Debug, Clone)]
pub struct Config {
    pub city: String,
    pub city_slug: String,
    pub thresholds: Thresholds,
    pub notify: Notify,
    pub sources: Sources,
    pub http: HttpConfig,
}

/// When a price drop is worth a notification: a drop of at least `min_drop_basis_points`
/// hundredths of a percent of the old price, or of at least `min_drop_kurus`.
#[derive(Debug, Clone, Copy)]
pub struct Thresholds {
    pub min_drop_basis_points: i64,
    pub min_drop_kurus: i64,
}

/// A drop from `old` to `new` is worth a notification.
pub open spec fn significant(th: Thresholds, old: int, new: int) -> bool {
    &&& new < old
    &&& old > 0
    &&& ((old - new) * 10000 >= th.min_drop_basis_points * old || old - new >= th.min_drop_kurus)
}

/// A drop counts when it is at least the percentage of the old price or at least the amount,
/// either alone being enough (5% or 50 TL: a 200 TL category dropping to 180 TL counts by the
/// percentage); a price that does not fall, or an old price that is not positive, never counts.
pub proof fn either_threshold_suffices(th: Thresholds, old: int, new: int)
    ensures
        old > 0 && new < old && (old - new) * 10000 >= th.min_drop_basis_points * old ==> significant(th, old, new),
        old > 0 && new < old && old - new >= th.min_drop_kurus ==> significant(th, old, new),
        old > 0 && new < old && (old - new) * 10000 < th.min_drop_basis_points * old && old - new < th.min_drop_kurus
            ==> !significant(th, old, new),
        new >= old || old <= 0 ==> !significant(th, old, new),
{
}

impl Thresholds {
    /// Whether the drop from the old price to the new one is worth a notification.
    pub fn is_significant(&self, old: i64, new: i64) -> (r: bool)
        ensures
            r == significant(*self, old as int, new as int),
    {
        if new >= old || old <= 0 {
            return false;
        }
        let drop: i128 = old as i128 - new as i128;
        let bp: i128 = self.min_drop_basis_points as i128;
        let o: i128 = old as i128;
        assert(-85070591730234615865843651857942052864 <= bp * o <= 85070591730234615865843651857942052864)
            by (nonlinear_arith)
            requires
                -9223372036854775808 <= bp <= 9223372036854775807,
                0 < o <= 9223372036854775807,
        ;
        drop * 10000 >= (self.min_drop_basis_points as i128) * (old as i128) || drop >= self.min_drop_kurus as i128
    }
}

#[derive(Debug, Clone, Copy)]
pub struct Notify {
    pub price_drop: bool,
    pub discount: bool,
    pub new_event: bool,
    pub back_in_stock: bool,
}

#[derive(Debug, Clone)]
pub struct Sources {
    pub bubilet: bool,
    pub biletinial: bool,
    pub biletix: bool,
    pub biletinial_categories: Vec<String>,
}

#[derive(Debug, Clone, Copy)]
pub struct HttpConfig {
    pub delay_ms: u64,
    pub timeout_secs: u64,
}

} // verus!
