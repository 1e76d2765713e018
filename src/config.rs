use vstd::prelude::*;

verus! {

/// Process settings: where the registry file lives.
#[derive(Debug)]
pub struct Config {
    pub hostsfile: String,
}

impl Config {
    /// Settings naming the registry file.
    pub fn new(hostsfile: String) -> (r: Config)
        ensures
            r.hostsfile@ == hostsfile@,
    {
        Config { hostsfile }
    }
}

} // verus!
