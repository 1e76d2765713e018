use vstd::prelude::*;
use crate::hosts::{Host, HostView, Hosts, RegistryError};
use crate::service::{
    extracted_lines, has_key, key_index, properties_of, show_service, Entries, ServiceProperties,
};
use crate::store::{
    get_status_from_db, has_record, insert_status, inserted, is_latest, opt_as_str, opt_view, Status,
    StatusTable, StoreError,
};

verus! {

/// The latest record of service `name` on `hostname` (the unique record
/// that `is_latest` names, where there is one).
pub open spec fn latest_record(rows: Seq<Status>, hostname: Seq<char>, name: Seq<char>) -> Status {
    rows[choose|i: int| is_latest(rows, i, hostname, name)]
}

proof fn lemma_latest_unique(rows: Seq<Status>, i: int, hostname: Seq<char>, name: Seq<char>)
    requires
        is_latest(rows, i, hostname, name),
    ensures
        latest_record(rows, hostname, name) == rows[i],
{
    let c = choose|c: int| is_latest(rows, c, hostname, name);
    assert(is_latest(rows, c, hostname, name));
    if c < i {
        assert(rows[c].hostname@ == hostname && rows[c].name@ == name);
    } else if i < c {
        assert(rows[i].hostname@ == hostname && rows[i].name@ == name);
    }
}

/// A (host, service) pair whose status could not be had, and why.
#[derive(Debug)]
pub struct Failure {
    pub hostname: String,
    pub service: String,
    pub error: StoreError,
}

impl Failure {
    /// A field-by-field copy.
    pub fn copy(&self) -> (r: Failure)
        ensures
            r == *self,
    {
        let error = match self.error {
            StoreError::NotFound => StoreError::NotFound,
            StoreError::Persistence => StoreError::Persistence,
        };
        Failure { hostname: self.hostname.clone(), service: self.service.clone(), error }
    }
}

/// What the query of one (host, service) pair gave.
#[derive(Debug)]
pub enum Outcome {
    Found(Status),
    Failed(Failure),
}

/// The gathered statuses, and the pairs that failed.
#[derive(Debug)]
pub struct Aggregate {
    pub records: Vec<Status>,
    pub failures: Vec<Failure>,
}

/// The outcome that the status query of service `name` on `hostname` owes.
pub open spec fn expected_outcome(o: Outcome, rows: Seq<Status>, hostname: Seq<char>, name: Seq<char>) -> bool {
    match o {
        Outcome::Found(s) => has_record(rows, hostname, name) && s == latest_record(rows, hostname, name),
        Outcome::Failed(f) => !has_record(rows, hostname, name) && f.hostname@ == hostname && f.service@
            == name && f.error == StoreError::NotFound,
    }
}

/// The records of the successful outcomes, in order.
pub open spec fn found_of(os: Seq<Outcome>) -> Seq<Status>
    decreases os.len(),
{
    if os.len() == 0 {
        Seq::empty()
    } else {
        let rest = found_of(os.drop_last());
        match os.last() {
            Outcome::Found(s) => rest.push(s),
            Outcome::Failed(_) => rest,
        }
    }
}

/// The failures among the outcomes, in order.
pub open spec fn failed_of(os: Seq<Outcome>) -> Seq<Failure>
    decreases os.len(),
{
    if os.len() == 0 {
        Seq::empty()
    } else {
        let rest = failed_of(os.drop_last());
        match os.last() {
            Outcome::Found(_) => rest,
            Outcome::Failed(f) => rest.push(f),
        }
    }
}

/// The records of all units' successful outcomes, unit by unit.
pub open spec fn found_all(units: Seq<Seq<Outcome>>) -> Seq<Status>
    decreases units.len(),
{
    if units.len() == 0 {
        Seq::empty()
    } else {
        found_all(units.drop_last()) + found_of(units.last())
    }
}

/// The failures of all units, unit by unit.
pub open spec fn failed_all(units: Seq<Seq<Outcome>>) -> Seq<Failure>
    decreases units.len(),
{
    if units.len() == 0 {
        Seq::empty()
    } else {
        failed_all(units.drop_last()) + failed_of(units.last())
    }
}

/// The outcomes of each unit of work.
pub open spec fn units_view(units: Seq<Vec<Outcome>>) -> Seq<Seq<Outcome>> {
    units.map_values(|u: Vec<Outcome>| u@)
}

/// The latest records of a host's services that have one, in service order.
pub open spec fn host_found(rows: Seq<Status>, hostname: Seq<char>, services: Seq<Seq<char>>) -> Seq<Status>
    decreases services.len(),
{
    if services.len() == 0 {
        Seq::empty()
    } else {
        let rest = host_found(rows, hostname, services.drop_last());
        let n = services.last();
        if has_record(rows, hostname, n) {
            rest.push(latest_record(rows, hostname, n))
        } else {
            rest
        }
    }
}

/// A host's services that have no record, as (hostname, service) pairs.
pub open spec fn host_missed(rows: Seq<Status>, hostname: Seq<char>, services: Seq<Seq<char>>) -> Seq<(Seq<char>, Seq<char>)>
    decreases services.len(),
{
    if services.len() == 0 {
        Seq::empty()
    } else {
        let rest = host_missed(rows, hostname, services.drop_last());
        let n = services.last();
        if has_record(rows, hostname, n) {
            rest
        } else {
            rest.push((hostname, n))
        }
    }
}

/// The latest records of every listed service that has one, host by host.
pub open spec fn fleet_found(rows: Seq<Status>, hs: Seq<HostView>) -> Seq<Status>
    decreases hs.len(),
{
    if hs.len() == 0 {
        Seq::empty()
    } else {
        fleet_found(rows, hs.drop_last()) + host_found(rows, hs.last().hostname, hs.last().services)
    }
}

/// Every listed (host, service) pair without a record, host by host.
pub open spec fn fleet_missed(rows: Seq<Status>, hs: Seq<HostView>) -> Seq<(Seq<char>, Seq<char>)>
    decreases hs.len(),
{
    if hs.len() == 0 {
        Seq::empty()
    } else {
        fleet_missed(rows, hs.drop_last()) + host_missed(rows, hs.last().hostname, hs.last().services)
    }
}

/// The (hostname, service) pairs of the failures.
pub open spec fn failure_pairs(fs: Seq<Failure>) -> Seq<(Seq<char>, Seq<char>)> {
    fs.map_values(|f: Failure| (f.hostname@, f.service@))
}

/// Every failure is a missing record.
pub open spec fn all_not_found(fs: Seq<Failure>) -> bool {
    forall|k: int| 0 <= k < fs.len() ==> (#[trigger] fs[k]).error == StoreError::NotFound
}

proof fn lemma_host_outcomes(os: Seq<Outcome>, rows: Seq<Status>, hostname: Seq<char>, services: Seq<Seq<char>>)
    requires
        os.len() == services.len(),
        forall|k: int| 0 <= k < os.len() ==> expected_outcome(#[trigger] os[k], rows, hostname, services[k]),
    ensures
        found_of(os) == host_found(rows, hostname, services),
        failure_pairs(failed_of(os)) == host_missed(rows, hostname, services),
        all_not_found(failed_of(os)),
    decreases os.len(),
{
    if os.len() > 0 {
        let ip = os.drop_last();
        let sp = services.drop_last();
        assert forall|k: int| 0 <= k < ip.len() implies expected_outcome(#[trigger] ip[k], rows, hostname, sp[k]) by {
            assert(ip[k] == os[k] && sp[k] == services[k]);
        }
        lemma_host_outcomes(ip, rows, hostname, sp);
        assert(expected_outcome(os[os.len() - 1], rows, hostname, services[services.len() - 1]));
        match os.last() {
            Outcome::Found(s) => {},
            Outcome::Failed(f) => {
                assert(failure_pairs(failed_of(ip).push(f)) =~= failure_pairs(failed_of(ip)).push((hostname, services.last())));
                let fs = failed_of(ip).push(f);
                assert forall|k: int| 0 <= k < fs.len() implies (#[trigger] fs[k]).error == StoreError::NotFound by {
                    if k < failed_of(ip).len() {
                        assert(fs[k] == failed_of(ip)[k]);
                    }
                }
            },
        }
    }
}

/// The unit of work for one host: the latest status of each of its
/// services, in service order; a service without a record is a failure.
pub fn query_host(host: &Host, table: &StatusTable) -> (r: Vec<Outcome>)
    ensures
        r@.len() == host@.services.len(),
        forall|k: int| 0 <= k < r@.len() ==> expected_outcome(#[trigger] r@[k], table.spec_rows(), host@.hostname, host@.services[k]),
{
    let mut r: Vec<Outcome> = Vec::new();
    let mut k: usize = 0;
    while k < host.services.len()
        invariant
            k <= host@.services.len(),
            r@.len() == k,
            forall|j: int| 0 <= j < k ==> expected_outcome(#[trigger] r@[j], table.spec_rows(), host@.hostname, host@.services[j]),
        decreases host@.services.len() - k,
    {
        let service = &host.services[k];
        assert(host@.services[k as int] == service@);
        let o = match get_status_from_db(table, host.hostname.as_str(), service.as_str()) {
            Ok(s) => {
                proof {
                    let i = choose|i: int| is_latest(table.spec_rows(), i, host@.hostname, service@) && s == table.spec_rows()[i];
                    lemma_latest_unique(table.spec_rows(), i, host@.hostname, service@);
                }
                Outcome::Found(s)
            },
            Err(e) => Outcome::Failed(Failure { hostname: host.hostname.clone(), service: service.clone(), error: e }),
        };
        r.push(o);
        k = k + 1;
    }
    r
}

/// Appends the records and failures of one unit's outcomes.
fn absorb(agg: &mut Aggregate, os: &Vec<Outcome>)
    ensures
        final(agg).records@ == old(agg).records@ + found_of(os@),
        final(agg).failures@ == old(agg).failures@ + failed_of(os@),
{
    let mut k: usize = 0;
    while k < os.len()
        invariant
            k <= os@.len(),
            agg.records@ == old(agg).records@ + found_of(os@.take(k as int)),
            agg.failures@ == old(agg).failures@ + failed_of(os@.take(k as int)),
        decreases os@.len() - k,
    {
        proof {
            assert(os@.take(k + 1).drop_last() =~= os@.take(k as int));
            assert(os@.take(k + 1).last() == os@[k as int]);
        }
        match &os[k] {
            Outcome::Found(s) => {
                agg.records.push(s.copy());
                proof {
                    assert(agg.records@ =~= old(agg).records@ + found_of(os@.take(k + 1)));
                    assert(agg.failures@ =~= old(agg).failures@ + failed_of(os@.take(k + 1)));
                }
            },
            Outcome::Failed(f) => {
                agg.failures.push(f.copy());
                proof {
                    assert(agg.records@ =~= old(agg).records@ + found_of(os@.take(k + 1)));
                    assert(agg.failures@ =~= old(agg).failures@ + failed_of(os@.take(k + 1)));
                }
            },
        }
        k = k + 1;
    }
    assert(os@.take(os@.len() as int) =~= os@);
}

/// Fan-in: gathers the outcomes of every unit of work, in the order the
/// units are given. A failure is set aside with its (host, service) pair;
/// it never stops the others.
pub fn collect_outcomes(units: &Vec<Vec<Outcome>>) -> (r: Aggregate)
    ensures
        r.records@ == found_all(units_view(units@)),
        r.failures@ == failed_all(units_view(units@)),
{
    let mut agg = Aggregate { records: Vec::new(), failures: Vec::new() };
    let mut k: usize = 0;
    proof {
        assert(units_view(units@).take(0) =~= Seq::<Seq<Outcome>>::empty());
    }
    while k < units.len()
        invariant
            k <= units@.len(),
            agg.records@ == found_all(units_view(units@).take(k as int)),
            agg.failures@ == failed_all(units_view(units@).take(k as int)),
        decreases units@.len() - k,
    {
        absorb(&mut agg, &units[k]);
        proof {
            let uv = units_view(units@);
            assert(uv.take(k + 1).drop_last() =~= uv.take(k as int));
            assert(uv.take(k + 1).last() == units@[k as int]@);
        }
        k = k + 1;
    }
    assert(units_view(units@).take(units@.len() as int) =~= units_view(units@));
    agg
}

/// The latest status of every (host, service) pair that the registry lists,
/// host by host; pairs without a record are set aside as failures. A failed
/// registry load passes through.
pub fn get_json_statuses(loaded: Result<Hosts, RegistryError>, table: &StatusTable) -> (r: Result<Aggregate, RegistryError>)
    ensures
        loaded is Err ==> r is Err && r->Err_0 == loaded->Err_0,
        loaded matches Ok(hs) ==> r matches Ok(agg) && {
            &&& agg.records@ == fleet_found(table.spec_rows(), hs@)
            &&& failure_pairs(agg.failures@) == fleet_missed(table.spec_rows(), hs@)
            &&& all_not_found(agg.failures@)
        },
{
    let hosts = match loaded {
        Ok(hs) => hs,
        Err(e) => {
            return Err(e);
        },
    };
    let ghost rows = table.spec_rows();
    let mut agg = Aggregate { records: Vec::new(), failures: Vec::new() };
    let mut i: usize = 0;
    proof {
        assert(hosts@.take(0) =~= Seq::<HostView>::empty());
        assert(failure_pairs(agg.failures@) =~= Seq::<(Seq<char>, Seq<char>)>::empty());
    }
    while i < hosts.len()
        invariant
            i <= hosts@.len(),
            rows == table.spec_rows(),
            agg.records@ == fleet_found(rows, hosts@.take(i as int)),
            failure_pairs(agg.failures@) == fleet_missed(rows, hosts@.take(i as int)),
            all_not_found(agg.failures@),
        decreases hosts@.len() - i,
    {
        let host = hosts.host(i);
        let os = query_host(host, table);
        proof {
            lemma_host_outcomes(os@, rows, host@.hostname, host@.services);
        }
        let ghost before = agg.failures@;
        absorb(&mut agg, &os);
        proof {
            assert(hosts@.take(i + 1).drop_last() =~= hosts@.take(i as int));
            assert(hosts@.take(i + 1).last() == host@);
            assert(failure_pairs(agg.failures@) =~= failure_pairs(before) + failure_pairs(failed_of(os@)));
            let fs = agg.failures@;
            assert forall|k: int| 0 <= k < fs.len() implies (#[trigger] fs[k]).error == StoreError::NotFound by {
                if k < before.len() {
                    assert(fs[k] == before[k]);
                } else {
                    assert(fs[k] == failed_of(os@)[k - before.len()]);
                }
            }
        }
        i = i + 1;
    }
    assert(hosts@.take(hosts@.len() as int) =~= hosts@);
    Ok(agg)
}


/// The value of `key` among the entries, if present.
pub open spec fn value_of(es: Entries, key: Seq<char>) -> Option<Seq<char>> {
    if has_key(es, key) {
        Some(es[key_index(es, key)].1)
    } else {
        None
    }
}

fn lookup(props: &ServiceProperties, key: &str) -> (r: Option<String>)
    requires
        props.wf(),
    ensures
        opt_view(r) == value_of(props@, key@),
{
    match props.get(key) {
        Some(v) => Some(v.clone()),
        None => None,
    }
}

/// What a snapshot records of a service's properties: its description,
/// whether its unit file state is exactly `enabled` (false when absent),
/// and its active state.
pub fn status_fields(props: &ServiceProperties) -> (r: (Option<String>, bool, Option<String>))
    requires
        props.wf(),
    ensures
        opt_view(r.0) == value_of(props@, "Description"@),
        r.1 == (value_of(props@, "UnitFileState"@) == Some("enabled"@)),
        opt_view(r.2) == value_of(props@, "ActiveState"@),
{
    let description = lookup(props, "Description");
    let state = lookup(props, "UnitFileState");
    let enabled = match state {
        Some(s) => {
            let e: String = "enabled".to_owned();
            s == e
        },
        None => false,
    };
    let active = lookup(props, "ActiveState");
    (description, enabled, active)
}

/// Records a fresh snapshot of `service` on `hostname` from the output of
/// its `show` query, stamped with the current time.
pub fn update_service_status(table: &mut StatusTable, hostname: &str, service: &str, out: &[u8]) -> (r: Result<usize, StoreError>)
    requires
        old(table).wf(),
    ensures
        final(table).wf(),
        r is Ok <==> old(table).spec_last_id() < i64::MAX,
        r is Err ==> r == Err::<usize, StoreError>(StoreError::Persistence) && *final(table) == *old(table),
        r is Ok ==> {
            let es = properties_of(extracted_lines(out@));
            &&& final(table).spec_rows().drop_last() == old(table).spec_rows()
            &&& final(table).spec_rows().len() == old(table).spec_rows().len() + 1
            &&& inserted(
                final(table).spec_rows().last(),
                old(table).spec_last_id() + 1,
                hostname@,
                service@,
                value_of(es, "Description"@),
                Some(value_of(es, "UnitFileState"@) == Some("enabled"@)),
                value_of(es, "ActiveState"@),
            )
            &&& final(table).spec_rows().last().last_check is Some
        },
{
    let shown = show_service(out);
    let (description, enabled, active) = status_fields(&shown.properties);
    insert_status(
        table,
        hostname,
        service,
        opt_as_str(&description),
        Some(enabled),
        opt_as_str(&active),
        None,
    )
}

} // verus!
