use vstd::prelude::*;

verus! {

/// A request naming a service on a host.
#[derive(Debug)]
pub struct HostnameWithService {
    pub hostname: String,
    pub service: String,
}

impl HostnameWithService {
    /// A request for `service` on `hostname`.
    pub fn new(hostname: String, service: String) -> (r: HostnameWithService)
        ensures
            r.hostname@ == hostname@,
            r.service@ == service@,
    {
        HostnameWithService { hostname, service }
    }
}

} // verus!
