use vstd::prelude::*;

verus! {

/// Relies on chrono's `impl From<SystemTime> for DateTime<Utc>`, read as
/// microseconds since the Unix epoch by `DateTime::timestamp_micros`: the
/// current system time, negative when the clock reads before the epoch.
#[verifier::external_body]
fn now_micros() -> (r: i64) {
    chrono::DateTime::<chrono::Utc>::from(std::time::SystemTime::now()).timestamp_micros()
}

/// One observation of a service's state on a host. `last_check` is in
/// microseconds since the Unix epoch.
#[derive(Debug)]
pub struct Status {
    pub id: i64,
    pub hostname: String,
    pub name: String,
    pub description: Option<String>,
    pub enabled: Option<bool>,
    pub active_status: Option<String>,
    pub last_check: Option<i64>,
}

/// Errors of the status store.
#[derive(Debug, PartialEq, Eq)]
pub enum StoreError {
    /// No record matches.
    NotFound,
    /// The record could not be written: the store has no identifier left.
    Persistence,
}

/// The text of an optional string.
pub open spec fn opt_view(o: Option<String>) -> Option<Seq<char>> {
    match o {
        Some(s) => Some(s@),
        None => None,
    }
}

/// The text of an optional string slice.
pub open spec fn opt_str_view(o: Option<&str>) -> Option<Seq<char>> {
    match o {
        Some(s) => Some(s@),
        None => None,
    }
}

/// Whether check time `a` is later than `b`; a missing time is earliest.
pub open spec fn later(a: Option<i64>, b: Option<i64>) -> bool {
    match (a, b) {
        (Some(x), Some(y)) => x > y,
        (Some(_), None) => true,
        (None, _) => false,
    }
}

/// Whether a record is about service `name` on `hostname`.
pub open spec fn is_for(r: Status, hostname: Seq<char>, name: Seq<char>) -> bool {
    r.hostname@ == hostname && r.name@ == name
}

/// Whether some record is about service `name` on `hostname`.
pub open spec fn has_record(rows: Seq<Status>, hostname: Seq<char>, name: Seq<char>) -> bool {
    exists|j: int| 0 <= j < rows.len() && is_for(rows[j], hostname, name)
}

/// Record `i` is the latest for the pair: no record of the pair is later,
/// and every earlier one is strictly older (the first of equal times wins).
pub open spec fn is_latest(rows: Seq<Status>, i: int, hostname: Seq<char>, name: Seq<char>) -> bool {
    &&& 0 <= i < rows.len()
    &&& is_for(rows[i], hostname, name)
    &&& forall|j: int|
        0 <= j < rows.len() && is_for(rows[j], hostname, name) ==> !later(
            rows[j].last_check,
            rows[i].last_check,
        )
    &&& forall|j: int|
        0 <= j < i && is_for(rows[j], hostname, name) ==> later(
            rows[i].last_check,
            rows[j].last_check,
        )
}

fn is_later(a: Option<i64>, b: Option<i64>) -> (r: bool)
    ensures
        r == later(a, b),
{
    match (a, b) {
        (Some(x), Some(y)) => x > y,
        (Some(_), None) => true,
        (None, _) => false,
    }
}

fn copy_opt(o: &Option<String>) -> (r: Option<String>)
    ensures
        r == *o,
{
    match o {
        Some(s) => Some(s.clone()),
        None => None,
    }
}

impl Status {
    /// A field-by-field copy.
    pub fn copy(&self) -> (r: Status)
        ensures
            r == *self,
    {
        Status {
            id: self.id,
            hostname: self.hostname.clone(),
            name: self.name.clone(),
            description: copy_opt(&self.description),
            enabled: self.enabled,
            active_status: copy_opt(&self.active_status),
            last_check: self.last_check,
        }
    }
}

/// Position of the latest record for service `name` on `hostname`.
fn latest_index(rows: &Vec<Status>, hostname: &str, name: &str) -> (r: Option<usize>)
    ensures
        match r {
            Some(i) => is_latest(rows@, i as int, hostname@, name@),
            None => !has_record(rows@, hostname@, name@),
        },
{
    let h: String = hostname.to_owned();
    let n: String = name.to_owned();
    let mut best: Option<usize> = None;
    let mut i: usize = 0;
    while i < rows.len()
        invariant
            i <= rows@.len(),
            h@ == hostname@,
            n@ == name@,
            match best {
                Some(b) => b < i && is_latest(rows@.take(i as int), b as int, hostname@, name@),
                None => !has_record(rows@.take(i as int), hostname@, name@),
            },
        decreases rows@.len() - i,
    {
        let row = &rows[i];
        let ghost t = rows@.take(i + 1);
        proof {
            assert forall|j: int| 0 <= j < i implies t[j] == rows@.take(i as int)[j] by {}
        }
        if row.hostname == h && row.name == n {
            match best {
                Some(b) => {
                    if is_later(row.last_check, rows[b].last_check) {
                        best = Some(i);
                    }
                },
                None => {
                    best = Some(i);
                },
            }
        }
        proof {
            match best {
                Some(b) => {
                    assert(t[b as int] == rows@[b as int]);
                    assert(t[i as int] == rows@[i as int]);
                },
                None => {
                    assert(t[i as int] == rows@[i as int]);
                    if has_record(t, hostname@, name@) {
                        let j = choose|j: int| 0 <= j < t.len() && is_for(t[j], hostname@, name@);
                        assert(rows@.take(i as int)[j] == t[j]);
                    }
                },
            }
        }
        i = i + 1;
    }
    assert(rows@.take(rows@.len() as int) =~= rows@);
    best
}


/// Whether two records are about the same (host, service) pair.
pub open spec fn same_pair(a: Status, b: Status) -> bool {
    a.hostname@ == b.hostname@ && a.name@ == b.name@
}

fn same_pair_exec(a: &Status, b: &Status) -> (r: bool)
    ensures
        r == same_pair(*a, *b),
{
    a.hostname == b.hostname && a.name == b.name
}

/// An append-only log of status records. Identifiers are given in
/// increasing order; `last_id` is at least every identifier in the log.
pub struct StatusTable {
    rows: Vec<Status>,
    last_id: i64,
}

impl StatusTable {
    /// The records, in order of insertion.
    pub closed spec fn spec_rows(&self) -> Seq<Status> {
        self.rows@
    }

    /// The greatest identifier handed out or read so far.
    pub closed spec fn spec_last_id(&self) -> i64 {
        self.last_id
    }

    /// Well-formed: no record has an identifier above `last_id`.
    pub open spec fn wf(&self) -> bool {
        &&& self.spec_last_id() >= 0
        &&& forall|i: int| 0 <= i < self.spec_rows().len() ==> #[trigger] self.spec_rows()[i].id <= self.spec_last_id()
    }

    /// An empty store.
    pub fn new() -> (r: StatusTable)
        ensures
            r.wf(),
            r.spec_rows() == Seq::<Status>::empty(),
            r.spec_last_id() == 0,
    {
        StatusTable { rows: Vec::new(), last_id: 0 }
    }

    /// A store holding `rows`, as read back from persistent storage. The
    /// next identifier follows the greatest one present (or 0).
    pub fn from_rows(rows: Vec<Status>) -> (r: StatusTable)
        ensures
            r.wf(),
            r.spec_rows() == rows@,
            r.spec_last_id() == 0 || exists|i: int| 0 <= i < rows@.len() && rows@[i].id == r.spec_last_id(),
    {
        let mut last: i64 = 0;
        let mut i: usize = 0;
        while i < rows.len()
            invariant
                i <= rows@.len(),
                last >= 0,
                last == 0 || exists|j: int| 0 <= j < i && rows@[j].id == last,
                forall|j: int| 0 <= j < i ==> #[trigger] rows@[j].id <= last,
            decreases rows@.len() - i,
        {
            if rows[i].id > last {
                last = rows[i].id;
            }
            i = i + 1;
        }
        StatusTable { rows, last_id: last }
    }

    /// The records, in order of insertion.
    pub fn rows(&self) -> (r: &Vec<Status>)
        ensures
            r@ == self.spec_rows(),
    {
        &self.rows
    }

    /// Number of records.
    pub fn len(&self) -> (r: usize)
        ensures
            r == self.spec_rows().len(),
    {
        self.rows.len()
    }
}

/// The record that an insert appends, given its identifier and check time.
pub open spec fn inserted(
    r: Status,
    id: int,
    hostname: Seq<char>,
    name: Seq<char>,
    description: Option<Seq<char>>,
    enabled: Option<bool>,
    active_status: Option<Seq<char>>,
) -> bool {
    &&& r.id == id
    &&& r.hostname@ == hostname
    &&& r.name@ == name
    &&& opt_view(r.description) == description
    &&& r.enabled == enabled
    &&& opt_view(r.active_status) == active_status
}

fn owned_opt(o: Option<&str>) -> (r: Option<String>)
    ensures
        opt_view(r) == opt_str_view(o),
{
    match o {
        Some(s) => Some(s.to_owned()),
        None => None,
    }
}

/// Appends a status record. A missing `last_check` is stamped with the
/// current time. Returns the number of records written.
pub fn insert_status(
    table: &mut StatusTable,
    hostname: &str,
    name: &str,
    description: Option<&str>,
    enabled: Option<bool>,
    active_status: Option<&str>,
    last_check: Option<i64>,
) -> (r: Result<usize, StoreError>)
    requires
        old(table).wf(),
    ensures
        final(table).wf(),
        r is Ok <==> old(table).spec_last_id() < i64::MAX,
        r is Err ==> r == Err::<usize, StoreError>(StoreError::Persistence) && *final(table) == *old(table),
        r is Ok ==> {
            &&& r == Ok::<usize, StoreError>(1)
            &&& final(table).spec_last_id() == old(table).spec_last_id() + 1
            &&& final(table).spec_rows().len() == old(table).spec_rows().len() + 1
            &&& final(table).spec_rows().drop_last() == old(table).spec_rows()
            &&& inserted(
                final(table).spec_rows().last(),
                old(table).spec_last_id() + 1,
                hostname@,
                name@,
                opt_str_view(description),
                enabled,
                opt_str_view(active_status),
            )
            &&& match last_check {
                Some(t) => final(table).spec_rows().last().last_check == Some(t),
                None => final(table).spec_rows().last().last_check is Some,
            }
        },
{
    if table.last_id == i64::MAX {
        return Err(StoreError::Persistence);
    }
    let stamp: i64 = match last_check {
        Some(t) => t,
        None => now_micros(),
    };
    let id = table.last_id + 1;
    let row = Status {
        id,
        hostname: hostname.to_owned(),
        name: name.to_owned(),
        description: owned_opt(description),
        enabled,
        active_status: owned_opt(active_status),
        last_check: Some(stamp),
    };
    table.rows.push(row);
    table.last_id = id;
    proof {
        assert(final(table).spec_rows().drop_last() =~= old(table).spec_rows());
        let rows = final(table).spec_rows();
        assert forall|i: int| 0 <= i < rows.len() implies #[trigger] rows[i].id <= final(table).spec_last_id() by {
            if i < old(table).spec_rows().len() {
                assert(rows[i] == old(table).spec_rows()[i]);
            }
        }
    }
    Ok(1)
}

/// The fields of a status record to insert, as a caller submits them.
#[derive(Debug)]
pub struct StatusRequest {
    pub hostname: String,
    pub name: String,
    pub description: Option<String>,
    pub enabled: Option<bool>,
    pub active_status: Option<String>,
    pub last_check: Option<i64>,
}

/// Borrows the text of an optional string.
pub(crate) fn opt_as_str(o: &Option<String>) -> (r: Option<&str>)
    ensures
        opt_str_view(r) == opt_view(*o),
{
    match o {
        Some(s) => Some(s.as_str()),
        None => None,
    }
}

/// Inserts the record that a request describes.
pub fn insert_status_by_obj(table: &mut StatusTable, status: StatusRequest) -> (r: Result<usize, StoreError>)
    requires
        old(table).wf(),
    ensures
        final(table).wf(),
        r is Ok <==> old(table).spec_last_id() < i64::MAX,
        r is Err ==> r == Err::<usize, StoreError>(StoreError::Persistence) && *final(table) == *old(table),
        r is Ok ==> {
            &&& r == Ok::<usize, StoreError>(1)
            &&& final(table).spec_rows().drop_last() == old(table).spec_rows()
            &&& final(table).spec_rows().len() == old(table).spec_rows().len() + 1
            &&& inserted(
                final(table).spec_rows().last(),
                old(table).spec_last_id() + 1,
                status.hostname@,
                status.name@,
                opt_view(status.description),
                status.enabled,
                opt_view(status.active_status),
            )
            &&& match status.last_check {
                Some(t) => final(table).spec_rows().last().last_check == Some(t),
                None => final(table).spec_rows().last().last_check is Some,
            }
        },
{
    insert_status(
        table,
        status.hostname.as_str(),
        status.name.as_str(),
        opt_as_str(&status.description),
        status.enabled,
        opt_as_str(&status.active_status),
        status.last_check,
    )
}

/// The latest record for service `servicename` on `hostname`.
pub fn get_status_from_db(table: &StatusTable, hostname: &str, servicename: &str) -> (r: Result<Status, StoreError>)
    ensures
        r is Ok <==> has_record(table.spec_rows(), hostname@, servicename@),
        r matches Ok(s) ==> exists|i: int| is_latest(table.spec_rows(), i, hostname@, servicename@) && s == table.spec_rows()[i],
        r is Err ==> r == Err::<Status, StoreError>(StoreError::NotFound),
{
    match latest_index(&table.rows, hostname, servicename) {
        Some(i) => {
            let s = table.rows[i].copy();
            assert(is_latest(table.spec_rows(), i as int, hostname@, servicename@));
            Ok(s)
        },
        None => Err(StoreError::NotFound),
    }
}

/// The first record with identifier `id`.
pub fn get_status_by_id(table: &StatusTable, id: i64) -> (r: Result<Status, StoreError>)
    ensures
        r is Ok <==> exists|i: int| 0 <= i < table.spec_rows().len() && table.spec_rows()[i].id == id,
        r matches Ok(s) ==> exists|i: int|
            0 <= i < table.spec_rows().len() && s == table.spec_rows()[i] && s.id == id && forall|j: int| 0 <= j < i ==> table.spec_rows()[j].id != id,
        r is Err ==> r == Err::<Status, StoreError>(StoreError::NotFound),
{
    let mut i: usize = 0;
    while i < table.rows.len()
        invariant
            i <= table.spec_rows().len(),
            forall|j: int| 0 <= j < i ==> table.spec_rows()[j].id != id,
        decreases table.spec_rows().len() - i,
    {
        if table.rows[i].id == id {
            return Ok(table.rows[i].copy());
        }
        i = i + 1;
    }
    Err(StoreError::NotFound)
}

/// The records that carry a check time, in order of insertion.
pub open spec fn checked_rows(rows: Seq<Status>) -> Seq<Status> {
    rows.filter(|r: Status| r.last_check is Some)
}

/// Every record that carries a check time.
pub fn get_all_statuses(table: &StatusTable) -> (r: Vec<Status>)
    ensures
        r@ == checked_rows(table.spec_rows()),
{
    let ghost rows = table.spec_rows();
    let mut out: Vec<Status> = Vec::new();
    let mut i: usize = 0;
    proof {
        reveal(Seq::filter);
        assert(rows.take(0).len() == 0);
        assert(out@ =~= checked_rows(rows.take(0)));
    }
    while i < table.rows.len()
        invariant
            i <= rows.len(),
            rows == table.spec_rows(),
            out@ == checked_rows(rows.take(i as int)),
        decreases rows.len() - i,
    {
        proof {
            reveal(Seq::filter);
            assert(rows.take(i + 1).drop_last() =~= rows.take(i as int));
            assert(rows.take(i + 1).last() == rows[i as int]);
        }
        if table.rows[i].last_check.is_some() {
            out.push(table.rows[i].copy());
        }
        i = i + 1;
    }
    assert(rows.take(rows.len() as int) =~= rows);
    out
}

/// Every record of `out` is the latest of its pair and carries a check time.
#[verifier::opaque]
pub open spec fn all_latest(rows: Seq<Status>, out: Seq<Status>) -> bool {
    forall|k: int| 0 <= k < out.len() ==> exists|i: int|
        is_latest(rows, i, out[k].hostname@, out[k].name@) && #[trigger] out[k] == rows[i] && rows[i].last_check is Some
}

/// No two records of `out` share a pair.
#[verifier::opaque]
pub open spec fn pairs_distinct(out: Seq<Status>) -> bool {
    forall|a: int, b: int| 0 <= a < out.len() && 0 <= b < out.len() && a != b ==> !same_pair(out[a], out[b])
}

/// Every checked record among the first `n` has its pair in `out`.
#[verifier::opaque]
pub open spec fn covers(rows: Seq<Status>, out: Seq<Status>, n: int) -> bool {
    forall|j: int| 0 <= j < n && (#[trigger] rows[j]).last_check is Some ==> exists|k: int|
        0 <= k < out.len() && same_pair(out[k], rows[j])
}

/// Every record of `out` has the pair of a checked record among the first `n`.
#[verifier::opaque]
pub open spec fn drawn_from(rows: Seq<Status>, out: Seq<Status>, n: int) -> bool {
    forall|k: int| 0 <= k < out.len() ==> pair_drawn(rows, #[trigger] out[k], n)
}

/// Record `s` has the pair of a checked record among the first `n`.
pub open spec fn pair_drawn(rows: Seq<Status>, s: Status, n: int) -> bool {
    exists|j: int| 0 <= j < n && (#[trigger] rows[j]).last_check is Some && same_pair(s, rows[j])
}

proof fn lemma_skip_row(rows: Seq<Status>, out: Seq<Status>, i: int)
    requires
        0 <= i < rows.len(),
        covers(rows, out, i),
        drawn_from(rows, out, i),
        rows[i].last_check is None || exists|jj: int| 0 <= jj < i && (#[trigger] rows[jj]).last_check is Some && same_pair(rows[jj], rows[i]),
    ensures
        covers(rows, out, i + 1),
        drawn_from(rows, out, i + 1),
{
    if rows[i].last_check is Some {
        reveal(covers);
        let jj = choose|jj: int| 0 <= jj < i && (#[trigger] rows[jj]).last_check is Some && same_pair(rows[jj], rows[i]);
        let k = choose|k: int| 0 <= k < out.len() && same_pair(out[k], rows[jj]);
        assert(same_pair(out[k], rows[i]));
    }
    assert(covers(rows, out, i + 1)) by {
        reveal(covers);
        assert forall|j: int| 0 <= j < i + 1 && (#[trigger] rows[j]).last_check is Some implies exists|k: int|
            0 <= k < out.len() && same_pair(out[k], rows[j]) by {
            if j == i {
                let jj = choose|jj: int| 0 <= jj < i && (#[trigger] rows[jj]).last_check is Some && same_pair(rows[jj], rows[i]);
                let k = choose|k: int| 0 <= k < out.len() && same_pair(out[k], rows[jj]);
                assert(same_pair(out[k], rows[i]));
            }
        }
    }
    reveal(drawn_from);
    assert forall|k: int| 0 <= k < out.len() implies pair_drawn(rows, #[trigger] out[k], i + 1) by {
        assert(pair_drawn(rows, out[k], i));
        let j = choose|j: int| 0 <= j < i && (#[trigger] rows[j]).last_check is Some && same_pair(out[k], rows[j]);
        assert(0 <= j < i + 1 && rows[j].last_check is Some && same_pair(out[k], rows[j]));
    }
}

/// The pair of checked record `i` is not among the pairs of `out`.
proof fn lemma_new_pair(rows: Seq<Status>, out: Seq<Status>, i: int)
    requires
        0 <= i < rows.len(),
        forall|jj: int| 0 <= jj < i && (#[trigger] rows[jj]).last_check is Some ==> !same_pair(rows[jj], rows[i]),
        drawn_from(rows, out, i),
    ensures
        forall|k: int| 0 <= k < out.len() ==> !same_pair(#[trigger] out[k], rows[i]),
{
    reveal(drawn_from);
    assert forall|k: int| 0 <= k < out.len() implies !same_pair(#[trigger] out[k], rows[i]) by {
        assert(pair_drawn(rows, out[k], i));
        let jk = choose|j: int| 0 <= j < i && (#[trigger] rows[j]).last_check is Some && same_pair(out[k], rows[j]);
        assert(!same_pair(rows[jk], rows[i]));
    }
}

proof fn lemma_push_row(rows: Seq<Status>, out: Seq<Status>, i: int, b: int)
    requires
        0 <= i < rows.len(),
        rows[i].last_check is Some,
        forall|jj: int| 0 <= jj < i && (#[trigger] rows[jj]).last_check is Some ==> !same_pair(rows[jj], rows[i]),
        is_latest(rows, b, rows[i].hostname@, rows[i].name@),
        all_latest(rows, out),
        pairs_distinct(out),
        covers(rows, out, i),
        drawn_from(rows, out, i),
    ensures
        all_latest(rows, out.push(rows[b])),
        pairs_distinct(out.push(rows[b])),
        covers(rows, out.push(rows[b]), i + 1),
        drawn_from(rows, out.push(rows[b]), i + 1),
{
    let s = rows[b];
    let o = out.push(s);
    assert(!later(rows[i].last_check, rows[b].last_check));
    assert(s.last_check is Some);
    assert(same_pair(s, rows[i]));
    lemma_new_pair(rows, out, i);
    assert(all_latest(rows, o)) by {
        reveal(all_latest);
        assert forall|k: int| 0 <= k < o.len() implies exists|ii: int|
            is_latest(rows, ii, o[k].hostname@, o[k].name@) && #[trigger] o[k] == rows[ii] && rows[ii].last_check is Some by {
            if k < out.len() {
                assert(o[k] == out[k]);
            } else {
                assert(o[k] == rows[b]);
            }
        }
    }
    assert(pairs_distinct(o)) by {
        reveal(pairs_distinct);
        assert forall|a: int, c: int| 0 <= a < o.len() && 0 <= c < o.len() && a != c implies !same_pair(o[a], o[c]) by {
            if a < out.len() && c < out.len() {
                assert(o[a] == out[a] && o[c] == out[c]);
            } else if a == out.len() {
                assert(o[c] == out[c]);
            } else {
                assert(o[a] == out[a]);
            }
        }
    }
    assert(drawn_from(rows, o, i + 1)) by {
        reveal(drawn_from);
        assert forall|k: int| 0 <= k < o.len() implies pair_drawn(rows, #[trigger] o[k], i + 1) by {
            if k < out.len() {
                assert(o[k] == out[k]);
                assert(pair_drawn(rows, out[k], i));
                let jk = choose|j: int| 0 <= j < i && (#[trigger] rows[j]).last_check is Some && same_pair(out[k], rows[j]);
                assert(0 <= jk < i + 1 && rows[jk].last_check is Some && same_pair(o[k], rows[jk]));
            } else {
                assert(o[k] == s);
                assert(0 <= i < i + 1 && rows[i].last_check is Some && same_pair(o[k], rows[i]));
            }
        }
    }
    assert(covers(rows, o, i + 1)) by {
        reveal(covers);
        assert forall|j: int| 0 <= j < i + 1 && (#[trigger] rows[j]).last_check is Some implies exists|k: int|
            0 <= k < o.len() && same_pair(o[k], rows[j]) by {
            if j < i {
                let k = choose|k: int| 0 <= k < out.len() && same_pair(out[k], rows[j]);
                assert(o[k] == out[k]);
            } else {
                assert(o[out.len() as int] == s);
            }
        }
    }
}

/// The latest record of each (host, service) pair that has a record with a
/// check time: each result is the latest of its pair, no two results share
/// a pair, and every such pair has a result.
pub open spec fn latest_of_each(rows: Seq<Status>, out: Seq<Status>) -> bool {
    &&& all_latest(rows, out)
    &&& pairs_distinct(out)
    &&& covers(rows, out, rows.len() as int)
}

/// The latest record of every (host, service) pair, in order of each pair's
/// first checked record. Records without a check time are left out.
pub fn get_latest_statuses(table: &StatusTable) -> (r: Vec<Status>)
    ensures
        latest_of_each(table.spec_rows(), r@),
{
    let ghost rows = table.spec_rows();
    let mut out: Vec<Status> = Vec::new();
    let mut i: usize = 0;
    proof {
        reveal(all_latest);
        reveal(pairs_distinct);
        reveal(covers);
        reveal(drawn_from);
    }
    while i < table.rows.len()
        invariant
            i <= rows.len(),
            rows == table.spec_rows(),
            all_latest(rows, out@),
            pairs_distinct(out@),
            covers(rows, out@, i as int),
            drawn_from(rows, out@, i as int),
        decreases rows.len() - i,
    {
        let row = &table.rows[i];
        if row.last_check.is_some() {
            let mut seen = false;
            let mut j: usize = 0;
            while j < i
                invariant
                    j <= i < rows.len(),
                    rows == table.spec_rows(),
                    *row == rows[i as int],
                    seen ==> exists|jj: int| 0 <= jj < i && (#[trigger] rows[jj]).last_check is Some && same_pair(rows[jj], rows[i as int]),
                    !seen ==> forall|jj: int| 0 <= jj < j && (#[trigger] rows[jj]).last_check is Some ==> !same_pair(rows[jj], rows[i as int]),
                decreases i - j,
            {
                if table.rows[j].last_check.is_some() && same_pair_exec(&table.rows[j], row) {
                    seen = true;
                }
                j = j + 1;
            }
            if seen {
                proof {
                    lemma_skip_row(rows, out@, i as int);
                }
            } else {
                match latest_index(&table.rows, row.hostname.as_str(), row.name.as_str()) {
                    Some(b) => {
                        let s = table.rows[b].copy();
                        proof {
                            lemma_push_row(rows, out@, i as int, b as int);
                        }
                        out.push(s);
                    },
                    None => {
                        proof {
                            assert(is_for(rows[i as int], rows[i as int].hostname@, rows[i as int].name@));
                        }
                    },
                }
            }
        } else {
            proof {
                lemma_skip_row(rows, out@, i as int);
            }
        }
        i = i + 1;
    }
    out
}

} // verus!
