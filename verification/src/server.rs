//! The limits that the HTTP service is set up with.

use vstd::prelude::*;

verus! {

/// Limits on request bodies, in bytes unless stated otherwise.
#[derive(Debug, Clone, Copy, PartialEq, Eq, Structural)]
pub struct ServiceLimits {
    pub xml_max_body_size: u64,
    pub post_object_max_file_size: u64,
    pub form_max_field_size: u64,
    pub form_max_fields_size: u64,
    /// A number of parts.
    pub form_max_parts: u64,
    /// How long a shutdown waits for requests in flight, in seconds.
    pub drain_seconds: u64,
}

/// The limits of the gateway: 20 MiB of XML, 5 GiB of an uploaded file, 1 MiB of a form field,
/// 20 MiB of all form fields in at most 1000 parts, and 10 seconds to drain.
pub fn service_limits() -> (l: ServiceLimits)
    ensures
        l.xml_max_body_size == 20 * 1024 * 1024,
        l.post_object_max_file_size == 5 * 1024 * 1024 * 1024,
        l.form_max_field_size == 1024 * 1024,
        l.form_max_fields_size == 20 * 1024 * 1024,
        l.form_max_parts == 1000,
        l.drain_seconds == 10,
{
    ServiceLimits {
        xml_max_body_size: 20_971_520,
        post_object_max_file_size: 5_368_709_120,
        form_max_field_size: 1_048_576,
        form_max_fields_size: 20_971_520,
        form_max_parts: 1000,
        drain_seconds: 10,
    }
}

/// The limits as the service is run with: mebibytes, gibibytes and seconds.
pub proof fn law_service_limits(l: ServiceLimits)
    requires
        call_ensures(service_limits, (), l),
    ensures
        l.xml_max_body_size == 20 * 1024 * 1024,
        l.form_max_field_size == 1024 * 1024,
        l.form_max_fields_size == l.xml_max_body_size,
        l.post_object_max_file_size == 5 * 1024 * l.form_max_field_size,
        l.form_max_parts == 1000,
        l.drain_seconds == 10,
{
}

} // verus!
