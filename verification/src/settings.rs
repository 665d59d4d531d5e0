//! What the process environment says.

use vstd::prelude::*;

use crate::millis::Millis;

verus! {

/// The environment variables that the bridge reads, each where it is set.
#[derive(Debug)]
pub struct EnvVars {
    /// `DRACO_BASE_URL`.
    pub draco_base_url: Option<String>,
    /// `TELEMETRY_HOTSPOT_P99_MS`, where it is a number.
    pub hotspot_p99_ms: Option<Millis>,
    /// `TELEMETRY_HOTSPOT_ALLOC_BYTES`.
    pub hotspot_alloc_bytes: Option<String>,
}

impl EnvVars {
    /// An environment that sets none of them.
    pub fn unset() -> (env: Self)
        ensures
            env.draco_base_url is None,
            env.hotspot_p99_ms is None,
            env.hotspot_alloc_bytes is None,
    {
        EnvVars { draco_base_url: None, hotspot_p99_ms: None, hotspot_alloc_bytes: None }
    }
}

} // verus!
