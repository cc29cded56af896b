//! The month and day shown in log timestamps.
use vstd::prelude::*;

verus! {

/// Days of month `m` (0-based) of a common year.
pub open spec fn month_length(m: nat) -> nat {
    seq![31nat, 28, 31, 30, 31, 30, 31, 31, 30, 31, 30, 31][m as int]
}

/// Days of a common year before month `m` (0-based).
pub open spec fn days_before_month(m: nat) -> nat
    decreases m,
{
    if m == 0 {
        0
    } else {
        days_before_month((m - 1) as nat) + month_length((m - 1) as nat)
    }
}

/// `(month, day)`, both 1-based, of day `days_since_epoch % 365` of a common year.
pub fn days_to_month_day(days_since_epoch: u64) -> (r: (u8, u8))
    ensures
        1 <= r.0 <= 12,
        days_before_month((r.0 - 1) as nat) <= days_since_epoch % 365 < days_before_month(
            r.0 as nat,
        ),
        r.1 == days_since_epoch % 365 - days_before_month((r.0 - 1) as nat) + 1,
{
    let mut remaining_days = days_since_epoch % 365;
    let month_days: [u64; 12] = [31, 28, 31, 30, 31, 30, 31, 31, 30, 31, 30, 31];
    let mut month: u8 = 1;
    let mut i: usize = 0;
    proof {
        reveal_with_fuel(days_before_month, 13);
    }
    while i < 12
        invariant_except_break
            i <= 12,
            month == i + 1,
            days_before_month(i as nat) <= days_since_epoch % 365,
            remaining_days == days_since_epoch % 365 - days_before_month(i as nat),
            forall|k: int| 0 <= k < 12 ==> #[trigger] month_days@[k] == month_length(k as nat),
            days_before_month(12) == 365,
        ensures
            i < 12,
            month == i + 1,
            days_before_month(i as nat) <= days_since_epoch % 365,
            remaining_days == days_since_epoch % 365 - days_before_month(i as nat),
            remaining_days < month_length(i as nat),
        decreases 12 - i,
    {
        let days_in_month = month_days[i];
        if remaining_days >= days_in_month {
            remaining_days = remaining_days - days_in_month;
            month = month + 1;
            i = i + 1;
        } else {
            break;
        }
    }
    let day = remaining_days + 1;
    proof {
        assert(remaining_days < 31) by {
            reveal_with_fuel(days_before_month, 2);
        }
    }
    (month, day as u8)
}

} // verus!
