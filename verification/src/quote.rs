//! The serp quote engine: pure, deterministic pricing functions.
//!
//! Prices are balances scaled by the configured `base_unit` (for example,
//! `base_unit = 1_000` encodes three decimal digits of precision).  Every
//! multiplication and subtraction saturates at the edges of the balance
//! range, and a zero divisor is reported as `ZeroPrice` rather than
//! panicking or wrapping, as the supply controller's rounding and overflow
//! policy demands.

use vstd::arithmetic::div_mod::lemma_div_is_ordered;
use vstd::arithmetic::mul::lemma_mul_inequality;
use vstd::arithmetic::mul::lemma_mul_upper_bound;
use vstd::prelude::*;

use crate::types::Error;

verus! {

/// `x * y` clamped to the balance range.
pub open spec fn sat_mul(x: u64, y: u64) -> u64 {
    if x * y > u64::MAX {
        u64::MAX
    } else {
        (x * y) as u64
    }
}

/// `x + y` clamped to the balance range.
pub open spec fn sat_add(x: u64, y: u64) -> u64 {
    if x + y > u64::MAX {
        u64::MAX
    } else {
        (x + y) as u64
    }
}

/// `x - y`, floored at zero.
pub open spec fn sat_sub(x: u64, y: u64) -> u64 {
    if x >= y {
        (x - y) as u64
    } else {
        0
    }
}

/// Saturating balance multiplication, computed through a double-width
/// intermediate.
pub fn saturating_mul(x: u64, y: u64) -> (r: u64)
    ensures
        r == sat_mul(x, y),
{
    proof {
        lemma_mul_upper_bound(x as int, u64::MAX as int, y as int, u64::MAX as int);
    }
    let p = (x as u128) * (y as u128);
    if p > u64::MAX as u128 {
        u64::MAX
    } else {
        p as u64
    }
}

/// The canonical representation of a pegged asset's price in terms of its
/// peg unit: `base_price * base_unit`, saturating.
pub fn peg_price(base_price: u64, base_unit: u64) -> (r: u64)
    ensures
        r == sat_mul(base_price, base_unit),
{
    saturating_mul(base_price, base_unit)
}

/// Both directions of the exchange ratio between two assets:
/// `(quote_price / base_price, base_price / quote_price)`.  A zero price on
/// either side is a zero divisor and is refused.
pub fn relative_price(base_price: u64, quote_price: u64) -> (r: Result<(u64, u64), Error>)
    ensures
        base_price == 0 || quote_price == 0 ==> r == Result::<(u64, u64), Error>::Err(
            Error::ZeroPrice,
        ),
        base_price != 0 && quote_price != 0 ==> r == Result::<(u64, u64), Error>::Ok(
            (quote_price / base_price, base_price / quote_price),
        ),
{
    if base_price == 0 || quote_price == 0 {
        return Err(Error::ZeroPrice);
    }
    Ok((quote_price / base_price, base_price / quote_price))
}

/// The premium-adjusted price used to value a serp expansion:
/// `fraction = price / base_unit`, `fractioned = max(fraction - 1, 0)`,
/// `quotation = fractioned * serp_quote_multiple`, result
/// `fraction + quotation` — all saturating.  A zero `base_unit` is a zero
/// divisor.
pub open spec fn spec_quote_serp_price(price: u64, base_unit: u64, serp_quote_multiple: u64) -> Result<
    u64,
    Error,
> {
    if base_unit == 0 {
        Err(Error::ZeroPrice)
    } else {
        let fraction = price / base_unit;
        let fractioned = sat_sub(fraction, 1);
        let quotation = sat_mul(fractioned, serp_quote_multiple);
        Ok(sat_add(fraction, quotation))
    }
}

/// Computes `spec_quote_serp_price` executably.
pub fn quote_serp_price(price: u64, base_unit: u64, serp_quote_multiple: u64) -> (r: Result<
    u64,
    Error,
>)
    ensures
        r == spec_quote_serp_price(price, base_unit, serp_quote_multiple),
{
    if base_unit == 0 {
        return Err(Error::ZeroPrice);
    }
    let fraction = price / base_unit;
    let fractioned = if fraction >= 1 {
        fraction - 1
    } else {
        0
    };
    let quotation = saturating_mul(fractioned, serp_quote_multiple);
    Ok(fraction.saturating_add(quotation))
}

/// The native-asset amount a reserve provider pays for the reward minted by
/// an expansion of `expand_by` on a supply of `supply`:
/// `new_base_price = (supply + expand_by) * base_unit / supply` (saturating
/// multiplication), `fractioned = max(new_base_price - base_unit, 0)`,
/// `quotation = fractioned * serp_quote_multiple`, `serp_quoted_price =
/// new_base_price - quotation`, `relative = quote_price /
/// serp_quoted_price`, result `expand_by / relative`.  A supply that would
/// overflow is `SupplyOverflow`; a zero divisor anywhere is `ZeroPrice`.
pub open spec fn spec_pay_serpup(
    supply: u64,
    expand_by: u64,
    base_unit: u64,
    serp_quote_multiple: u64,
    quote_price: u64,
) -> Result<u64, Error> {
    if supply + expand_by > u64::MAX {
        Err(Error::SupplyOverflow)
    } else if supply == 0 {
        Err(Error::ZeroPrice)
    } else {
        let new_supply = (supply + expand_by) as u64;
        let defloated = sat_mul(new_supply, base_unit);
        let new_base_price = defloated / supply;
        let fractioned = sat_sub(new_base_price, base_unit);
        let quotation = sat_mul(fractioned, serp_quote_multiple);
        let serp_quoted_price = sat_sub(new_base_price, quotation);
        if serp_quoted_price == 0 {
            Err(Error::ZeroPrice)
        } else {
            let relative = quote_price / serp_quoted_price;
            if relative == 0 {
                Err(Error::ZeroPrice)
            } else {
                Ok(expand_by / relative)
            }
        }
    }
}

/// Computes `spec_pay_serpup` executably.
pub fn pay_serpup_by_quoted(
    supply: u64,
    expand_by: u64,
    base_unit: u64,
    serp_quote_multiple: u64,
    quote_price: u64,
) -> (r: Result<u64, Error>)
    ensures
        r == spec_pay_serpup(supply, expand_by, base_unit, serp_quote_multiple, quote_price),
{
    let new_supply = match supply.checked_add(expand_by) {
        Some(v) => v,
        None => {
            return Err(Error::SupplyOverflow);
        },
    };
    if supply == 0 {
        return Err(Error::ZeroPrice);
    }
    let defloated = saturating_mul(new_supply, base_unit);
    let new_base_price = defloated / supply;
    let fractioned = if new_base_price >= base_unit {
        new_base_price - base_unit
    } else {
        0
    };
    let quotation = saturating_mul(fractioned, serp_quote_multiple);
    let serp_quoted_price = if new_base_price >= quotation {
        new_base_price - quotation
    } else {
        0
    };
    if serp_quoted_price == 0 {
        return Err(Error::ZeroPrice);
    }
    let relative = quote_price / serp_quoted_price;
    if relative == 0 {
        return Err(Error::ZeroPrice);
    }
    Ok(expand_by / relative)
}

/// The native-asset amount owed back to the reserve provider for burning
/// `contract_by` of pegged supply from a supply of `supply`:
/// `new_base_price = (supply - contract_by) * base_unit / supply`
/// (saturating multiplication), `fractioned = max(base_unit -
/// new_base_price, 0)`, `quotation = fractioned * serp_quote_multiple`,
/// `serp_quoted_price = quotation + new_base_price`, `relative =
/// serp_quoted_price / quote_price`, result `relative * contract_by /
/// base_unit`.  Contracting more than the supply is `SupplyUnderflow`; a
/// zero divisor anywhere is `ZeroPrice`.
pub open spec fn spec_pay_serpdown(
    supply: u64,
    contract_by: u64,
    base_unit: u64,
    serp_quote_multiple: u64,
    quote_price: u64,
) -> Result<u64, Error> {
    if contract_by > supply {
        Err(Error::SupplyUnderflow)
    } else if supply == 0 || quote_price == 0 || base_unit == 0 {
        Err(Error::ZeroPrice)
    } else {
        let new_supply = (supply - contract_by) as u64;
        let defloated = sat_mul(new_supply, base_unit);
        let new_base_price = defloated / supply;
        let fractioned = sat_sub(base_unit, new_base_price);
        let quotation = sat_mul(fractioned, serp_quote_multiple);
        let serp_quoted_price = sat_add(quotation, new_base_price);
        let relative = serp_quoted_price / quote_price;
        let scaled = sat_mul(relative, contract_by);
        Ok(scaled / base_unit)
    }
}

/// Computes `spec_pay_serpdown` executably.
pub fn pay_serpdown_by_quoted(
    supply: u64,
    contract_by: u64,
    base_unit: u64,
    serp_quote_multiple: u64,
    quote_price: u64,
) -> (r: Result<u64, Error>)
    ensures
        r == spec_pay_serpdown(supply, contract_by, base_unit, serp_quote_multiple, quote_price),
{
    if contract_by > supply {
        return Err(Error::SupplyUnderflow);
    }
    if supply == 0 || quote_price == 0 || base_unit == 0 {
        return Err(Error::ZeroPrice);
    }
    let new_supply = supply - contract_by;
    let defloated = saturating_mul(new_supply, base_unit);
    let new_base_price = defloated / supply;
    let fractioned = if base_unit >= new_base_price {
        base_unit - new_base_price
    } else {
        0
    };
    let quotation = saturating_mul(fractioned, serp_quote_multiple);
    let serp_quoted_price = quotation.saturating_add(new_base_price);
    let relative = serp_quoted_price / quote_price;
    let scaled = saturating_mul(relative, contract_by);
    Ok(scaled / base_unit)
}

/// How much supply must change to bring a deviating price back to its peg:
/// `supply * max(price - base_unit, 0) / base_unit`, clamped to the balance
/// range.  A zero `base_unit` is a zero divisor.
pub open spec fn spec_supply_change(supply: u64, base_unit: u64, price: u64) -> Result<u64, Error> {
    if base_unit == 0 {
        Err(Error::ZeroPrice)
    } else {
        let raw = (supply as int) * (sat_sub(price, base_unit) as int) / (base_unit as int);
        if raw > u64::MAX {
            Ok(u64::MAX)
        } else {
            Ok(raw as u64)
        }
    }
}

/// Computes `spec_supply_change` executably, through a double-width
/// intermediate.
pub fn calculate_supply_change(supply: u64, base_unit: u64, price: u64) -> (r: Result<u64, Error>)
    ensures
        r == spec_supply_change(supply, base_unit, price),
{
    if base_unit == 0 {
        return Err(Error::ZeroPrice);
    }
    let over = if price >= base_unit {
        price - base_unit
    } else {
        0
    };
    proof {
        lemma_mul_upper_bound(supply as int, u64::MAX as int, over as int, u64::MAX as int);
    }
    let p = (supply as u128) * (over as u128);
    let q = p / (base_unit as u128);
    if q > u64::MAX as u128 {
        Ok(u64::MAX)
    } else {
        Ok(q as u64)
    }
}

/// Law: for a fixed base unit and a fixed premium multiple, the
/// premium-adjusted serp price is non-decreasing in the quoted price.
pub proof fn lemma_quote_serp_price_monotonic(p1: u64, p2: u64, base_unit: u64, m: u64)
    requires
        base_unit > 0,
        p1 <= p2,
    ensures
        spec_quote_serp_price(p1, base_unit, m) is Ok,
        spec_quote_serp_price(p2, base_unit, m) is Ok,
        spec_quote_serp_price(p1, base_unit, m)->Ok_0 <= spec_quote_serp_price(p2, base_unit, m)->Ok_0,
{
    let f1 = p1 / base_unit;
    let f2 = p2 / base_unit;
    lemma_div_is_ordered(p1 as int, p2 as int, base_unit as int);
    let d1 = sat_sub(f1, 1);
    let d2 = sat_sub(f2, 1);
    assert(d1 <= d2);
    lemma_mul_inequality(d1 as int, d2 as int, m as int);
    assert(sat_mul(d1, m) <= sat_mul(d2, m));
    assert(sat_add(f1, sat_mul(d1, m)) <= sat_add(f2, sat_mul(d2, m)));
}

} // verus!
