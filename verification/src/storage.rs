//! The user's runtime configuration: where the bundle lives.
use vstd::prelude::*;
use crate::text::{concat2, trim, trim_str};

verus! {

/// The user's runtime configuration file.
pub struct UserRuntimeConfig {
    pub schema_version: u32,
    pub bundle_dir: String,
}

/// The schema version written into a new configuration.
pub fn default_schema_version() -> (v: u32)
    ensures
        v == 1,
{
    1
}

/// The configuration that points at a bundle folder.
pub fn new_user_runtime_config(bundle_dir: String) -> (c: UserRuntimeConfig)
    ensures
        c.schema_version == 1,
        c.bundle_dir@ == bundle_dir@,
{
    UserRuntimeConfig { schema_version: default_schema_version(), bundle_dir }
}

/// A configuration must name a folder.
pub fn validate_user_runtime_config(config: &UserRuntimeConfig, config_path: &str) -> (r: Result<(), String>)
    ensures
        trim(config.bundle_dir@).len() > 0 ==> r is Ok,
        trim(config.bundle_dir@).len() == 0 ==> r is Err && r->Err_0@
            == "user runtime config field 'bundleDir' is empty in "@ + config_path@,
{
    let t = trim_str(config.bundle_dir.as_str());
    if t.as_str().is_empty() {
        return Err(concat2("user runtime config field 'bundleDir' is empty in ", config_path));
    }
    Ok(())
}

/// The bundle folder a configuration names, trimmed.
pub fn configured_bundle_dir(config: &UserRuntimeConfig) -> (r: String)
    ensures
        r@ == trim(config.bundle_dir@),
{
    trim_str(config.bundle_dir.as_str())
}

} // verus!
