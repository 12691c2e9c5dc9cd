//! Typed shapes of the recognized configuration surface.  These carry no
//! behaviour; unrecognized keys of the document itself always round-trip
//! unchanged.

use vstd::prelude::*;

verus! {

/// The recognized top-level configuration fields.
#[derive(Debug, Clone, PartialEq, Eq, Default)]
pub struct IClash {
    pub mixed_port: Option<u16>,
    pub allow_lan: Option<bool>,
    pub log_level: Option<String>,
    pub ipv6: Option<bool>,
    pub mode: Option<String>,
    pub external_controller: Option<String>,
    pub secret: Option<String>,
    pub dns: Option<IClashDNS>,
    pub tun: Option<IClashTUN>,
    pub interface_name: Option<String>,
}

/// The `tun` sub-mapping.
#[derive(Debug, Clone, PartialEq, Eq, Default)]
pub struct IClashTUN {
    pub enable: Option<bool>,
    pub stack: Option<String>,
    pub auto_route: Option<bool>,
    pub auto_detect_interface: Option<bool>,
    pub dns_hijack: Option<Vec<String>>,
}

/// The `dns` sub-mapping.
#[derive(Debug, Clone, PartialEq, Eq, Default)]
pub struct IClashDNS {
    pub enable: Option<bool>,
    pub listen: Option<String>,
    pub default_nameserver: Option<Vec<String>>,
    pub enhanced_mode: Option<String>,
    pub fake_ip_range: Option<String>,
    pub use_hosts: Option<bool>,
    pub fake_ip_filter: Option<Vec<String>>,
    pub nameserver: Option<Vec<String>>,
    pub fallback: Option<Vec<String>>,
    pub fallback_filter: Option<IClashFallbackFilter>,
    pub nameserver_policy: Option<Vec<String>>,
}

/// The `dns.fallback-filter` sub-mapping.
#[derive(Debug, Clone, PartialEq, Eq, Default)]
pub struct IClashFallbackFilter {
    pub geoip: Option<bool>,
    pub geoip_code: Option<String>,
    pub ipcidr: Option<Vec<String>>,
    pub domain: Option<Vec<String>>,
}

} // verus!
