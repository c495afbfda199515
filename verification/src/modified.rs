//! Modification times as signed 64-bit milliseconds since the Unix epoch.

use vstd::prelude::*;

verus! {

/// The 64-bit two's-complement reading of the low 64 bits of `n`. It is `n`
/// itself for every `n` from 0 to `i64::MAX`.
pub open spec fn wrap_to_i64(n: int) -> int {
    let low = n % 0x1_0000_0000_0000_0000;
    if low >= 0x8000_0000_0000_0000 {
        low - 0x1_0000_0000_0000_0000
    } else {
        low
    }
}

/// The listed modification time for a time given in whole milliseconds since
/// the epoch: the count wrapped to 64 bits, and 0 where no time is known.
pub open spec fn modified_ms_of(since_epoch: Option<u128>) -> int {
    match since_epoch {
        Some(millis) => wrap_to_i64(millis as int),
        None => 0,
    }
}

/// Gives the modification time that a listing shows.
///
/// `since_epoch` is the time in whole milliseconds since the Unix epoch, or
/// `None` where the file system gave no time or one that lies before the
/// epoch; `None` is shown as the epoch itself. A count too large for 64
/// bits keeps its low 64 bits.
pub fn modified_millis(since_epoch: Option<u128>) -> (ms: i64)
    ensures
        ms == modified_ms_of(since_epoch),
        since_epoch matches Some(millis) ==> (millis <= i64::MAX ==> ms == millis),
{
    match since_epoch {
        None => 0,
        Some(millis) => {
            let low: u128 = millis % 0x1_0000_0000_0000_0000;
            if low >= 0x8000_0000_0000_0000 {
                let above: u128 = low - 0x8000_0000_0000_0000;
                (above as i64) + i64::MIN
            } else {
                low as i64
            }
        },
    }
}

} // verus!
