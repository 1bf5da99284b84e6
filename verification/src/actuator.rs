//! The actuator's side of the egress socket: each 32-byte frame it reads is
//! decoded and recorded as one append-only log line.

use crate::text::{append_bytes, decimal, hex_fixed, push_decimal, push_hex_fixed};
use vstd::prelude::*;
use vstd::string::StringSliceAdditionalSpecFns;

verus! {

/// The log line for one frame received at `ts_ms` (milliseconds since the
/// Unix epoch): `<ts_ms> domain=<domain_id> magnitude=<magnitude>
/// token=0x<32 hex digits>` and a line feed.
pub open spec fn spec_event_line(ts_ms: u128, domain_id: u64, magnitude: u64, token: u128) -> Seq<
    u8,
> {
    decimal(ts_ms as nat) + " domain=".spec_bytes() + decimal(domain_id as nat)
        + " magnitude=".spec_bytes() + decimal(magnitude as nat) + " token=0x".spec_bytes()
        + hex_fixed(token as nat, 32) + "\n".spec_bytes()
}

/// Formats the log line for one decoded frame.
pub fn event_log_line(ts_ms: u128, domain_id: u64, magnitude: u64, token: u128) -> (line: Vec<u8>)
    ensures
        line@ == spec_event_line(ts_ms, domain_id, magnitude, token),
{
    let mut line: Vec<u8> = Vec::new();
    push_decimal(&mut line, ts_ms);
    append_bytes(&mut line, " domain=".as_bytes());
    push_decimal(&mut line, domain_id as u128);
    append_bytes(&mut line, " magnitude=".as_bytes());
    push_decimal(&mut line, magnitude as u128);
    append_bytes(&mut line, " token=0x".as_bytes());
    push_hex_fixed(&mut line, token, 32);
    append_bytes(&mut line, "\n".as_bytes());
    assert(line@ =~= spec_event_line(ts_ms, domain_id, magnitude, token));
    line
}

} // verus!
