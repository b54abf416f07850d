use vstd::prelude::*;

verus! {

/// Bits a frame takes on the wire, on average.
pub const BITS_PER_FRAME: u128 = 100;
/// Full bus load, in hundredths of a percent.
pub const FULL_LOAD: u32 = 10_000;

/// Counters of a channel. The bus load is held in hundredths of a percent.
#[derive(Debug, Clone, Copy, PartialEq, Eq, Structural)]
pub struct BusStats {
    pub bus_load: u32,
    pub tx_count: u64,
    pub rx_count: u64,
    pub error_count: u64,
    pub tx_error_counter: u8,
    pub rx_error_counter: u8,
}

pub open spec fn bump(n: u64) -> u64 {
    if n < u64::MAX { (n + 1) as u64 } else { n }
}

/// The estimated load of `rate` frames a second at `bitrate`, in hundredths of a percent:
/// 100 bits a frame, capped at full load; full load at a bitrate of zero.
pub open spec fn load_of(rate: u64, bitrate: u32) -> u32 {
    if bitrate == 0 {
        FULL_LOAD
    } else {
        let l = (rate as int) * 100 * 10_000 / (bitrate as int);
        if l > FULL_LOAD { FULL_LOAD } else { l as u32 }
    }
}

/// Frames a second between two counter readings `elapsed_ms` apart: the growth of the
/// count scaled to a second, held within `u64`; zero over no time or no growth.
pub open spec fn rate_of(prev_total: u64, total: u64, elapsed_ms: u64) -> u64 {
    if elapsed_ms == 0 || total <= prev_total {
        0
    } else {
        let v = ((total - prev_total) as int) * 1000 / (elapsed_ms as int);
        if v > u64::MAX { u64::MAX } else { v as u64 }
    }
}

/// The message-rate step of the statistics ticker.
pub fn message_rate(prev_total: u64, total: u64, elapsed_ms: u64) -> (r: u64)
    ensures
        r == rate_of(prev_total, total, elapsed_ms),
{
    if elapsed_ms == 0 || total <= prev_total {
        return 0;
    }
    let d: u128 = (total - prev_total) as u128;
    let q: u128 = d * 1000 / (elapsed_ms as u128);
    if q > u64::MAX as u128 { u64::MAX } else { q as u64 }
}

impl BusStats {
    pub open spec fn zero() -> BusStats {
        BusStats { bus_load: 0, tx_count: 0, rx_count: 0, error_count: 0, tx_error_counter: 0, rx_error_counter: 0 }
    }

    /// All counters at zero.
    pub fn new() -> (r: BusStats)
        ensures
            r == BusStats::zero(),
    {
        BusStats { bus_load: 0, tx_count: 0, rx_count: 0, error_count: 0, tx_error_counter: 0, rx_error_counter: 0 }
    }

    /// Sets every counter back to zero.
    pub fn reset(&mut self)
        ensures
            *final(self) == BusStats::zero(),
    {
        *self = BusStats::new();
    }

    /// Counts one transmitted frame.
    pub fn record_tx(&mut self)
        ensures
            *final(self) == (BusStats { tx_count: bump(old(self).tx_count), ..*old(self) }),
    {
        if self.tx_count < u64::MAX {
            self.tx_count = self.tx_count + 1;
        }
    }

    /// Counts one received frame.
    pub fn record_rx(&mut self)
        ensures
            *final(self) == (BusStats { rx_count: bump(old(self).rx_count), ..*old(self) }),
    {
        if self.rx_count < u64::MAX {
            self.rx_count = self.rx_count + 1;
        }
    }

    /// Counts one error.
    pub fn record_error(&mut self)
        ensures
            *final(self) == (BusStats { error_count: bump(old(self).error_count), ..*old(self) }),
    {
        if self.error_count < u64::MAX {
            self.error_count = self.error_count + 1;
        }
    }

    /// Estimates the load from a rate in frames per second.
    pub fn update_bus_load(&mut self, messages_per_second: u64, bitrate: u32)
        ensures
            *final(self) == (BusStats { bus_load: load_of(messages_per_second, bitrate), ..*old(self) }),
    {
        if bitrate == 0 {
            self.bus_load = FULL_LOAD;
            return;
        }
        let l: u128 = (messages_per_second as u128) * BITS_PER_FRAME * 10_000 / (bitrate as u128);
        self.bus_load = if l > FULL_LOAD as u128 { FULL_LOAD } else { l as u32 };
    }
}

/// Statistics with timing: the message rate in frames a second, the first and last message
/// times in microseconds, and the number of ids seen.
#[derive(Debug, Clone, Copy, PartialEq, Eq, Structural)]
pub struct ExtendedBusStats {
    pub base: BusStats,
    pub msg_rate: u64,
    pub first_msg_time_us: Option<i64>,
    pub last_msg_time_us: Option<i64>,
    pub unique_ids: u32,
}

} // verus!
