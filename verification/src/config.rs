//! Immutable per-deployment configuration, loaded once at start.
//!
//! Ratios are fixed-point fractions of `base_unit`: a ratio `r` stands for
//! the fraction `r / base_unit`, so `serper_ratio + settpay_ratio ==
//! base_unit` says the two shares add up to 100%.  The constructor validates
//! the configuration invariants and refuses an invalid record.

use vstd::prelude::*;

verus! {

/// The configuration record the supply controller is constructed with.
#[derive(Clone, Copy, PartialEq, Eq, Structural, Debug)]
pub struct Config {
    /// The asset id of the native collateral asset.
    pub native_id: u64,
    /// Fixed-point scale: how many integer steps make one unit of price or
    /// ratio.  Must be nonzero.
    pub base_unit: u64,
    /// Premium multiple applied to the price deviation when quoting a serp
    /// settlement.
    pub serp_quote_multiple: u64,
    /// Reserve-provider share of newly minted supply, scaled by `base_unit`.
    pub serper_ratio: u64,
    /// Treasury share of newly minted supply, scaled by `base_unit`.
    pub settpay_ratio: u64,
    /// The treasury account that receives the `settpay_ratio` share.
    pub settpay_acc: u64,
    /// The reserve-provider account that supplies native collateral.
    pub serper_acc: u64,
}

impl Config {
    /// The configuration invariants: a nonzero fixed-point scale, and the
    /// two distribution shares adding up to exactly 100%.
    pub open spec fn valid(self) -> bool {
        &&& self.base_unit > 0
        &&& self.serper_ratio + self.settpay_ratio == self.base_unit
    }

    /// The treasury's share of a newly minted amount: the settpay fraction
    /// of it, rounded down.
    pub open spec fn settpay_share(self, amount: u64) -> int {
        (amount as int) * (self.settpay_ratio as int) / (self.base_unit as int)
    }

    /// The reserve provider's share of a newly minted amount: what the
    /// treasury's share leaves, so the two always add up to the whole.
    pub open spec fn serper_share(self, amount: u64) -> int {
        amount - self.settpay_share(amount)
    }

    /// Builds a configuration record, refusing one that breaks the
    /// configuration invariants.
    pub fn new(
        native_id: u64,
        base_unit: u64,
        serp_quote_multiple: u64,
        serper_ratio: u64,
        settpay_ratio: u64,
        settpay_acc: u64,
        serper_acc: u64,
    ) -> (r: Option<Config>)
        ensures
            match r {
                Some(c) => {
                    &&& c.valid()
                    &&& c == (Config {
                        native_id,
                        base_unit,
                        serp_quote_multiple,
                        serper_ratio,
                        settpay_ratio,
                        settpay_acc,
                        serper_acc,
                    })
                },
                None => !(Config {
                    native_id,
                    base_unit,
                    serp_quote_multiple,
                    serper_ratio,
                    settpay_ratio,
                    settpay_acc,
                    serper_acc,
                }).valid(),
            },
    {
        if base_unit == 0 {
            return None;
        }
        if serper_ratio > base_unit || base_unit - serper_ratio != settpay_ratio {
            return None;
        }
        Some(
            Config {
                native_id,
                base_unit,
                serp_quote_multiple,
                serper_ratio,
                settpay_ratio,
                settpay_acc,
                serper_acc,
            },
        )
    }
}

} // verus!
