//! How many copies of a dispatch document to print.
use vstd::prelude::*;

use crate::config::{Config, PrintingConfig};
use crate::either::Either;
use crate::emergency::Emergency;
use crate::radio_identifier::{RadioIdentifier, RadioIdentifierView};
use crate::text::str_is;

verus! {

/// The number of dispatched units of agency `amt` with organisation `FL` in
/// county `PM`.
pub open spec fn units_from_amt(units: Seq<Either<RadioIdentifierView, Seq<char>>>, amt: u8) -> nat
    decreases units.len(),
{
    if units.len() == 0 {
        0
    } else {
        units_from_amt(units.drop_last(), amt) + match units.last() {
            Either::Left(id) => if id.agency == amt && id.county == "PM"@ && id.org == "FL"@ {
                1nat
            } else {
                0nat
            },
            Either::Right(_) => 0nat,
        }
    }
}

/// The number of copies: one per unit of the configured agency, plus the
/// additional copies, at least the minimum and at most the maximum.
pub open spec fn copies(units: nat, p: PrintingConfig) -> int {
    let c = match p.additional_copies {
        Some(a) => if units + a <= usize::MAX {
            units + a
        } else {
            usize::MAX as int
        },
        None => units as int,
    };
    let c2 = if c >= p.min_copies {
        c
    } else {
        p.min_copies as int
    };
    match p.max_copies {
        Some(m) => if c2 <= m {
            c2
        } else {
            m as int
        },
        None => c2,
    }
}

pub fn count_units_from_configured_amt(ems: &Emergency, config: &Config) -> (r: usize)
    ensures
        r == units_from_amt(ems@.dispatched_units, config.printing.amt),
{
    let ghost units = ems@.dispatched_units;
    let amt = config.printing.amt;
    let mut count: usize = 0;
    let mut k: usize = 0;
    while k < ems.dispatched_units.len()
        invariant
            k <= ems.dispatched_units.len(),
            units == ems@.dispatched_units,
            amt == config.printing.amt,
            count <= k,
            count == units_from_amt(units.take(k as int), amt),
        decreases ems.dispatched_units.len() - k,
    {
        assert(units.take(k + 1).drop_last() =~= units.take(k as int));
        assert(units.take(k + 1).last() == units[k as int]);
        match &ems.dispatched_units[k] {
            Either::Left(id) => {
                if id.agency == amt && str_is(id.county.as_str(), "PM") && str_is(
                    id.org.as_str(),
                    "FL",
                ) {
                    count += 1;
                }
            },
            Either::Right(_) => {},
        }
        k += 1;
    }
    assert(units.take(k as int) =~= units);
    count
}

pub fn count_copies(ems: &Emergency, config: &Config) -> (r: usize)
    ensures
        r == copies(units_from_amt(ems@.dispatched_units, config.printing.amt), config.printing),
{
    let mut count = count_units_from_configured_amt(ems, config);
    match config.printing.additional_copies {
        Some(a) => {
            count = count.saturating_add(a as usize);
        },
        None => {},
    }
    if count < config.printing.min_copies as usize {
        count = config.printing.min_copies as usize;
    }
    match config.printing.max_copies {
        Some(m) => {
            if count > m as usize {
                count = m as usize;
            }
        },
        None => {},
    }
    count
}

} // verus!
