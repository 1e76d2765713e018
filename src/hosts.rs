use vstd::prelude::*;

verus! {

/// The mathematical value of a `Host`: its hostname and its service names.
pub ghost struct HostView {
    pub hostname: Seq<char>,
    pub services: Seq<Seq<char>>,
}

/// A monitored machine and the services it runs, in display order.
#[derive(Debug, Clone, PartialEq, Eq)]
pub struct Host {
    pub hostname: String,
    pub services: Vec<String>,
}

/// The texts of a list of strings.
pub open spec fn strings_view(v: Seq<String>) -> Seq<Seq<char>> {
    v.map_values(|s: String| s@)
}

impl View for Host {
    type V = HostView;

    open spec fn view(&self) -> HostView {
        HostView { hostname: self.hostname@, services: strings_view(self.services@) }
    }
}

/// Errors of the registry: the backing file, its format, and lookups.
#[derive(Debug, PartialEq, Eq)]
pub enum RegistryError {
    Io(String),
    Format(String),
    HostNotFound,
    ServiceNotFound,
}

/// The first position of `s` in `ss`, if any.
pub open spec fn first_index_of(ss: Seq<Seq<char>>, s: Seq<char>) -> Option<int> {
    if ss.contains(s) {
        Some(choose|i: int| 0 <= i < ss.len() && ss[i] == s && (forall|j: int| 0 <= j < i ==> ss[j] != s))
    } else {
        None
    }
}

/// `ss` without the first occurrence of `s` (unchanged when `s` is absent).
pub open spec fn without_first(ss: Seq<Seq<char>>, s: Seq<char>) -> Seq<Seq<char>> {
    match first_index_of(ss, s) {
        Some(i) => ss.remove(i),
        None => ss,
    }
}

proof fn lemma_first_index(ss: Seq<Seq<char>>, s: Seq<char>, i: int)
    requires
        0 <= i < ss.len(),
        ss[i] == s,
        forall|j: int| 0 <= j < i ==> ss[j] != s,
    ensures
        first_index_of(ss, s) == Some(i),
{
    assert(ss.contains(s));
    let k = choose|k: int| 0 <= k < ss.len() && ss[k] == s && (forall|j: int| 0 <= j < k ==> ss[j] != s);
    if k < i {
        assert(ss[k] != s);
    }
    if i < k {
        assert(ss[i] != s);
    }
}

/// Position of the first string equal to `s` in `v`.
fn position_of(v: &Vec<String>, s: &str) -> (r: Option<usize>)
    ensures
        match r {
            Some(i) => i < v@.len() && first_index_of(strings_view(v@), s@) == Some(i as int),
            None => first_index_of(strings_view(v@), s@) is None,
        },
{
    let ghost ss = strings_view(v@);
    let target: String = s.to_owned();
    let mut i: usize = 0;
    while i < v.len()
        invariant
            i <= v@.len(),
            ss == strings_view(v@),
            target@ == s@,
            forall|j: int| 0 <= j < i ==> ss[j] != s@,
        decreases v@.len() - i,
    {
        if v[i] == target {
            proof {
                lemma_first_index(ss, s@, i as int);
            }
            return Some(i);
        }
        i = i + 1;
    }
    proof {
        if ss.contains(s@) {
            let k = choose|k: int| 0 <= k < ss.len() && ss[k] == s@;
            assert(ss[k] != s@);
        }
    }
    None
}

/// Whether two lists of strings are equal, element by element.
fn same_strings(a: &Vec<String>, b: &Vec<String>) -> (r: bool)
    ensures
        r == (strings_view(a@) == strings_view(b@)),
{
    if a.len() != b.len() {
        assert(strings_view(a@).len() != strings_view(b@).len());
        return false;
    }
    let mut i: usize = 0;
    while i < a.len()
        invariant
            i <= a@.len(),
            a@.len() == b@.len(),
            forall|j: int| 0 <= j < i ==> a@[j]@ == b@[j]@,
        decreases a@.len() - i,
    {
        if a[i] != b[i] {
            assert(strings_view(a@)[i as int] != strings_view(b@)[i as int]);
            return false;
        }
        i = i + 1;
    }
    assert(strings_view(a@) =~= strings_view(b@));
    true
}

impl Host {
    /// Appends a service to this host's list.
    pub fn add_service(&mut self, service: &str)
        ensures
            final(self)@.hostname == old(self)@.hostname,
            final(self)@.services == old(self)@.services.push(service@),
    {
        self.services.push(service.to_owned());
        proof {
            assert(final(self)@.services =~= old(self)@.services.push(service@));
        }
    }

    /// Removes the first occurrence of a service from this host's list.
    pub fn remove_service(&mut self, service: &str)
        requires
            old(self)@.services.contains(service@),
        ensures
            final(self)@.hostname == old(self)@.hostname,
            final(self)@.services == without_first(old(self)@.services, service@),
    {
        let pos = position_of(&self.services, service);
        match pos {
            Some(p) => {
                self.services.remove(p);
                proof {
                    assert(final(self)@.services =~= old(self)@.services.remove(p as int));
                }
            },
            None => {
                proof {
                    assert(first_index_of(old(self)@.services, service@) is Some);
                }
            },
        }
    }
}


/// No two hosts share a hostname.
pub open spec fn hostnames_unique(hs: Seq<HostView>) -> bool {
    forall|i: int, j: int|
        0 <= i < hs.len() && 0 <= j < hs.len() && i != j ==> hs[i].hostname != hs[j].hostname
}

/// Whether some host is named `name`.
pub open spec fn has_host(hs: Seq<HostView>, name: Seq<char>) -> bool {
    exists|i: int| 0 <= i < hs.len() && hs[i].hostname == name
}

/// The position of the host named `name`, where there is one.
pub open spec fn host_index(hs: Seq<HostView>, name: Seq<char>) -> int {
    choose|i: int| 0 <= i < hs.len() && hs[i].hostname == name
}

/// The registry without the host named `name` (unchanged when there is none).
pub open spec fn without_host(hs: Seq<HostView>, name: Seq<char>) -> Seq<HostView> {
    if has_host(hs, name) {
        hs.remove(host_index(hs, name))
    } else {
        hs
    }
}

/// Adding a host replaces any host of the same name, then appends.
pub open spec fn add_host_spec(hs: Seq<HostView>, h: HostView) -> Seq<HostView> {
    without_host(hs, h.hostname).push(h)
}

/// The registry after adding each of `adds` in turn.
pub open spec fn add_hosts_spec(hs: Seq<HostView>, adds: Seq<HostView>) -> Seq<HostView>
    decreases adds.len(),
{
    if adds.len() == 0 {
        hs
    } else {
        add_host_spec(add_hosts_spec(hs, adds.drop_last()), adds.last())
    }
}

/// The registry with `service` appended to the services of the host at `i`.
pub open spec fn with_service_added(hs: Seq<HostView>, i: int, service: Seq<char>) -> Seq<HostView> {
    hs.update(i, HostView { hostname: hs[i].hostname, services: hs[i].services.push(service) })
}

/// The registry with the first `service` removed from the host at `i`.
pub open spec fn with_service_removed(hs: Seq<HostView>, i: int, service: Seq<char>) -> Seq<HostView> {
    hs.update(
        i,
        HostView { hostname: hs[i].hostname, services: without_first(hs[i].services, service) },
    )
}

proof fn lemma_host_index(hs: Seq<HostView>, name: Seq<char>, i: int)
    requires
        hostnames_unique(hs),
        0 <= i < hs.len(),
        hs[i].hostname == name,
    ensures
        has_host(hs, name),
        host_index(hs, name) == i,
{
    let k = host_index(hs, name);
    assert(hs[k].hostname == name);
}

proof fn lemma_unique_remove(hs: Seq<HostView>, i: int)
    requires
        hostnames_unique(hs),
        0 <= i < hs.len(),
    ensures
        hostnames_unique(hs.remove(i)),
        forall|j: int| 0 <= j < hs.remove(i).len() ==> hs.remove(i)[j].hostname != hs[i].hostname,
{
    let r = hs.remove(i);
    assert forall|a: int, b: int|
        0 <= a < r.len() && 0 <= b < r.len() && a != b implies r[a].hostname != r[b].hostname by {
        let a2 = if a < i { a } else { a + 1 };
        let b2 = if b < i { b } else { b + 1 };
        assert(r[a] == hs[a2]);
        assert(r[b] == hs[b2]);
    }
    assert forall|j: int| 0 <= j < r.len() implies r[j].hostname != hs[i].hostname by {
        let j2 = if j < i { j } else { j + 1 };
        assert(r[j] == hs[j2]);
    }
}

/// Adding a host keeps hostnames unique.
pub proof fn lemma_add_host_unique(hs: Seq<HostView>, h: HostView)
    requires
        hostnames_unique(hs),
    ensures
        hostnames_unique(add_host_spec(hs, h)),
        add_host_spec(hs, h).last() == h,
        !has_host(without_host(hs, h.hostname), h.hostname),
{
    let w = without_host(hs, h.hostname);
    if has_host(hs, h.hostname) {
        let k = host_index(hs, h.hostname);
        lemma_unique_remove(hs, k);
    }
    let r = w.push(h);
    assert forall|a: int, b: int|
        0 <= a < r.len() && 0 <= b < r.len() && a != b implies r[a].hostname != r[b].hostname by {
        if a < w.len() && b < w.len() {
            assert(r[a] == w[a] && r[b] == w[b]);
        } else if a == w.len() {
            assert(r[b] == w[b]);
        } else {
            assert(r[a] == w[a]);
        }
    }
}

/// Whatever sequence of hosts is added to a registry whose hostnames are
/// unique, no two hosts of the result share a hostname.
pub proof fn lemma_adds_keep_hostnames_unique(hs: Seq<HostView>, adds: Seq<HostView>)
    requires
        hostnames_unique(hs),
    ensures
        hostnames_unique(add_hosts_spec(hs, adds)),
    decreases adds.len(),
{
    if adds.len() > 0 {
        lemma_adds_keep_hostnames_unique(hs, adds.drop_last());
        lemma_add_host_unique(add_hosts_spec(hs, adds.drop_last()), adds.last());
    }
}

proof fn lemma_add_hosts_identity(hs: Seq<HostView>)
    requires
        hostnames_unique(hs),
    ensures
        add_hosts_spec(Seq::empty(), hs) == hs,
    decreases hs.len(),
{
    if hs.len() > 0 {
        let init = hs.drop_last();
        assert(hostnames_unique(init)) by {
            assert forall|a: int, b: int|
                0 <= a < init.len() && 0 <= b < init.len() && a != b implies init[a].hostname
                != init[b].hostname by {
                assert(init[a] == hs[a] && init[b] == hs[b]);
            }
        }
        lemma_add_hosts_identity(init);
        assert(!has_host(init, hs.last().hostname)) by {
            if has_host(init, hs.last().hostname) {
                let j = choose|j: int| 0 <= j < init.len() && init[j].hostname == hs.last().hostname;
                assert(hs[j] == init[j]);
            }
        }
        assert(init.push(hs.last()) =~= hs);
    }
}

/// Saving a registry and loading it back gives the same registry: rebuilding
/// from the saved list of hosts, one by one, yields that list.
pub proof fn lemma_save_load_round_trip(hs: Seq<HostView>)
    requires
        hostnames_unique(hs),
    ensures
        add_hosts_spec(Seq::empty(), hs) == hs,
{
    lemma_add_hosts_identity(hs);
}

/// Adding a host, then saving and loading the registry, reproduces the
/// registry as it stood after the add.
pub proof fn lemma_add_save_load(hs: Seq<HostView>, h: HostView)
    requires
        hostnames_unique(hs),
    ensures
        add_hosts_spec(Seq::empty(), add_host_spec(hs, h)) == add_host_spec(hs, h),
{
    lemma_add_host_unique(hs, h);
    lemma_add_hosts_identity(add_host_spec(hs, h));
}

/// The set of hosts to monitor; hostnames are unique.
#[derive(Debug)]
pub struct Hosts {
    hosts: Vec<Host>,
}

impl View for Hosts {
    type V = Seq<HostView>;

    closed spec fn view(&self) -> Seq<HostView> {
        self.hosts@.map_values(|h: Host| h@)
    }
}

impl Hosts {
    /// Well-formed: hostnames are unique.
    pub open spec fn wf(&self) -> bool {
        hostnames_unique(self@)
    }

    /// An empty registry.
    pub fn new() -> (r: Hosts)
        ensures
            r.wf(),
            r@ == Seq::<HostView>::empty(),
    {
        let r = Hosts { hosts: Vec::new() };
        assert(r@ =~= Seq::<HostView>::empty());
        r
    }

    /// Hands out the hosts, in registry order.
    pub fn get_hosts(self) -> (r: Vec<Host>)
        ensures
            r@.map_values(|h: Host| h@) == self@,
    {
        self.hosts
    }

    /// The host at position `i`.
    pub fn host(&self, i: usize) -> (r: &Host)
        requires
            i < self@.len(),
        ensures
            r@ == self@[i as int],
    {
        &self.hosts[i]
    }

    /// A registry holding `hosts`, added one by one: a later host replaces
    /// an earlier one of the same hostname.
    pub fn from_hosts(hosts: Vec<Host>) -> (r: Hosts)
        ensures
            r.wf(),
            r@ == add_hosts_spec(Seq::empty(), hosts@.map_values(|h: Host| h@)),
    {
        let ghost adds = hosts@.map_values(|h: Host| h@);
        let mut r = Hosts::new();
        let mut rest = hosts;
        let ghost mut k: int = 0;
        while rest.len() > 0
            invariant
                r.wf(),
                0 <= k <= adds.len(),
                rest@.map_values(|h: Host| h@) == adds.skip(k),
                rest@.len() == adds.len() - k,
                r@ == add_hosts_spec(Seq::empty(), adds.take(k)),
            decreases rest@.len(),
        {
            let ghost before = rest@;
            let h = rest.remove(0);
            proof {
                assert forall|j: int| 0 <= j < rest@.len() implies rest@[j]@ == adds.skip(k + 1)[j] by {
                    assert(rest@[j] == before[j + 1]);
                    assert(before.map_values(|h: Host| h@)[j + 1] == adds.skip(k)[j + 1]);
                }
                assert(adds.skip(k)[0] == h@);
                assert(adds.take(k + 1).drop_last() =~= adds.take(k));
                assert(adds.take(k + 1).last() == h@);
            }
            r.add_host(h);
            proof {
                assert(rest@.map_values(|h: Host| h@) =~= adds.skip(k + 1));
                k = k + 1;
            }
        }
        proof {
            assert(adds.take(k) =~= adds);
        }
        r
    }

    /// Number of hosts.
    pub fn len(&self) -> (r: usize)
        ensures
            r == self@.len(),
    {
        self.hosts.len()
    }

    /// Position of the host named `hostname`.
    fn find(&self, hostname: &str) -> (r: Option<usize>)
        requires
            self.wf(),
        ensures
            match r {
                Some(i) => i < self@.len() && self@[i as int].hostname == hostname@ && has_host(
                    self@,
                    hostname@,
                ) && host_index(self@, hostname@) == i,
                None => !has_host(self@, hostname@),
            },
    {
        let target: String = hostname.to_owned();
        let mut i: usize = 0;
        while i < self.hosts.len()
            invariant
                i <= self@.len(),
                self.wf(),
                target@ == hostname@,
                forall|j: int| 0 <= j < i ==> self@[j].hostname != hostname@,
            decreases self@.len() - i,
        {
            if self.hosts[i].hostname == target {
                proof {
                    lemma_host_index(self@, hostname@, i as int);
                }
                return Some(i);
            }
            i = i + 1;
        }
        None
    }

    /// Adds a host, replacing any host of the same hostname.
    pub fn add_host(&mut self, host: Host)
        requires
            old(self).wf(),
        ensures
            final(self).wf(),
            final(self)@ == add_host_spec(old(self)@, host@),
    {
        let ghost hv = host@;
        let _ = self.remove_host_by_hostname(host.hostname.as_str());
        self.hosts.push(host);
        proof {
            assert(final(self)@ =~= without_host(old(self)@, hv.hostname).push(hv));
            lemma_add_host_unique(old(self)@, hv);
        }
    }

    /// Removes the host equal to `host` in hostname and services.
    pub fn remove_host(&mut self, host: &Host) -> (r: Option<Host>)
        requires
            old(self).wf(),
        ensures
            final(self).wf(),
            match r {
                Some(h) => h@ == host@ && has_host(old(self)@, host@.hostname) && old(self)@[host_index(old(self)@, host@.hostname)] == host@ && final(self)@ == without_host(old(self)@, host@.hostname),
                None => final(self)@ == old(self)@ && !(has_host(old(self)@, host@.hostname) && old(self)@[host_index(old(self)@, host@.hostname)] == host@),
            },
    {
        match self.find(host.hostname.as_str()) {
            Some(i) => {
                if same_strings(&self.hosts[i].services, &host.services) {
                    let h = self.hosts.remove(i);
                    proof {
                        assert(final(self)@ =~= old(self)@.remove(i as int));
                        lemma_unique_remove(old(self)@, i as int);
                    }
                    Some(h)
                } else {
                    None
                }
            },
            None => None,
        }
    }

    /// The host named `hostname`, if any.
    pub fn get_host_by_hostname(&self, hostname: &str) -> (r: Option<&Host>)
        requires
            self.wf(),
        ensures
            match r {
                Some(h) => has_host(self@, hostname@) && h@ == self@[host_index(self@, hostname@)],
                None => !has_host(self@, hostname@),
            },
    {
        match self.find(hostname) {
            Some(i) => Some(&self.hosts[i]),
            None => None,
        }
    }

    /// Removes the host named `hostname`; absence is no error.
    pub fn remove_host_by_hostname(&mut self, hostname: &str) -> (r: Option<Host>)
        requires
            old(self).wf(),
        ensures
            final(self).wf(),
            final(self)@ == without_host(old(self)@, hostname@),
            match r {
                Some(h) => has_host(old(self)@, hostname@) && h@ == old(self)@[host_index(old(self)@, hostname@)],
                None => !has_host(old(self)@, hostname@),
            },
    {
        match self.find(hostname) {
            Some(i) => {
                let h = self.hosts.remove(i);
                proof {
                    assert(final(self)@ =~= old(self)@.remove(i as int));
                    lemma_unique_remove(old(self)@, i as int);
                }
                Some(h)
            },
            None => None,
        }
    }

    /// Appends a service to the host named `hostname`.
    pub fn add_service(&mut self, hostname: &str, service: &str) -> (r: Result<(), RegistryError>)
        requires
            old(self).wf(),
        ensures
            final(self).wf(),
            has_host(old(self)@, hostname@) <==> r is Ok,
            r is Ok ==> final(self)@ == with_service_added(old(self)@, host_index(old(self)@, hostname@), service@),
            r is Err ==> r == Err::<(), RegistryError>(RegistryError::HostNotFound) && final(self)@ == old(self)@,
    {
        match self.find(hostname) {
            Some(i) => {
                let mut h = self.hosts.remove(i);
                h.add_service(service);
                self.hosts.insert(i, h);
                proof {
                    assert(final(self)@ =~= with_service_added(old(self)@, i as int, service@));
                    assert forall|a: int, b: int|
                        0 <= a < final(self)@.len() && 0 <= b < final(self)@.len() && a != b
                        implies final(self)@[a].hostname != final(self)@[b].hostname by {
                        assert(final(self)@[a].hostname == old(self)@[a].hostname);
                        assert(final(self)@[b].hostname == old(self)@[b].hostname);
                    }
                }
                Ok(())
            },
            None => Err(RegistryError::HostNotFound),
        }
    }

    /// Removes the first occurrence of a service from the host named
    /// `hostname`.
    pub fn remove_service(&mut self, hostname: &str, service: &str) -> (r: Result<(), RegistryError>)
        requires
            old(self).wf(),
        ensures
            final(self).wf(),
            r is Ok <==> has_host(old(self)@, hostname@) && old(self)@[host_index(old(self)@, hostname@)].services.contains(service@),
            r is Ok ==> final(self)@ == with_service_removed(old(self)@, host_index(old(self)@, hostname@), service@),
            r is Err ==> final(self)@ == old(self)@,
            r == Err::<(), RegistryError>(RegistryError::HostNotFound) <==> !has_host(old(self)@, hostname@),
            r == Err::<(), RegistryError>(RegistryError::ServiceNotFound) <==> has_host(old(self)@, hostname@) && !old(self)@[host_index(old(self)@, hostname@)].services.contains(service@),
    {
        match self.find(hostname) {
            Some(i) => {
                match position_of(&self.hosts[i].services, service) {
                    Some(_) => {
                        let mut h = self.hosts.remove(i);
                        proof {
                            assert(first_index_of(h@.services, service@) is Some);
                        }
                        h.remove_service(service);
                        self.hosts.insert(i, h);
                        proof {
                            assert(final(self)@ =~= with_service_removed(old(self)@, i as int, service@));
                            assert forall|a: int, b: int|
                                0 <= a < final(self)@.len() && 0 <= b < final(self)@.len() && a != b
                                implies final(self)@[a].hostname != final(self)@[b].hostname by {
                                assert(final(self)@[a].hostname == old(self)@[a].hostname);
                                assert(final(self)@[b].hostname == old(self)@[b].hostname);
                            }
                        }
                        Ok(())
                    },
                    None => Err(RegistryError::ServiceNotFound),
                }
            },
            None => Err(RegistryError::HostNotFound),
        }
    }
}


/// Adds a host to a loaded registry, replacing any host of the same
/// hostname; a failed load passes through. The result is what to save.
pub fn add_host_to_hosts_file(loaded: Result<Hosts, RegistryError>, host: Host) -> (r: Result<Hosts, RegistryError>)
    requires
        loaded matches Ok(hs) ==> hs.wf(),
    ensures
        loaded is Err ==> r == loaded,
        loaded matches Ok(hs) ==> r matches Ok(nhs) && nhs.wf() && nhs@ == add_host_spec(hs@, host@),
{
    match loaded {
        Ok(mut hs) => {
            hs.add_host(host);
            Ok(hs)
        },
        Err(e) => Err(e),
    }
}

/// Adds a service to a host of a loaded registry. The result is what to save.
pub fn add_svc_to_hosts_file(loaded: Result<Hosts, RegistryError>, hostname: &str, service: &str) -> (r: Result<Hosts, RegistryError>)
    requires
        loaded matches Ok(hs) ==> hs.wf(),
    ensures
        loaded is Err ==> r == loaded,
        loaded matches Ok(hs) ==> {
            &&& r is Ok <==> has_host(hs@, hostname@)
            &&& r matches Ok(nhs) ==> nhs.wf() && nhs@ == with_service_added(hs@, host_index(hs@, hostname@), service@)
            &&& r is Err ==> r == Err::<Hosts, RegistryError>(RegistryError::HostNotFound)
        },
{
    match loaded {
        Ok(mut hs) => {
            match hs.add_service(hostname, service) {
                Ok(()) => Ok(hs),
                Err(e) => Err(e),
            }
        },
        Err(e) => Err(e),
    }
}

/// Removes a service from a host of a loaded registry. The result is what
/// to save.
pub fn rem_svc_from_hosts_file(loaded: Result<Hosts, RegistryError>, hostname: &str, service: &str) -> (r: Result<Hosts, RegistryError>)
    requires
        loaded matches Ok(hs) ==> hs.wf(),
    ensures
        loaded is Err ==> r == loaded,
        loaded matches Ok(hs) ==> {
            &&& r is Ok <==> has_host(hs@, hostname@) && hs@[host_index(hs@, hostname@)].services.contains(service@)
            &&& r matches Ok(nhs) ==> nhs.wf() && nhs@ == with_service_removed(hs@, host_index(hs@, hostname@), service@)
            &&& r == Err::<Hosts, RegistryError>(RegistryError::HostNotFound) <==> !has_host(hs@, hostname@)
            &&& r == Err::<Hosts, RegistryError>(RegistryError::ServiceNotFound) <==> has_host(hs@, hostname@) && !hs@[host_index(hs@, hostname@)].services.contains(service@)
        },
{
    match loaded {
        Ok(mut hs) => {
            match hs.remove_service(hostname, service) {
                Ok(()) => Ok(hs),
                Err(e) => Err(e),
            }
        },
        Err(e) => Err(e),
    }
}

} // verus!
