//! Request ids and what is logged of a request.

use crate::error::S3Error;
use crate::number::{
    lemma_hyphen_splits, lemma_numeral_digits, lemma_numeral_injective, numeral, numeral_text,
};
use vstd::prelude::*;

verus! {

/// The id of the request number `seq`, made `micros` microseconds after the Unix epoch.
pub open spec fn request_id_of(micros: u128, seq: u64) -> Seq<char> {
    numeral(micros as nat, 36).push('-') + numeral(seq as nat, 16)
}

/// Make a request id: a base36 timestamp plus a process-local sequence number.
pub fn new_request_id(micros: u128, seq: u64) -> (id: String)
    ensures
        id@ == request_id_of(micros, seq),
{
    let mut id = numeral_text(micros, 36);
    id.append("-");
    id.append(numeral_text(seq as u128, 16).as_str());
    proof {
        reveal_strlit("-");
        assert(id@ =~= request_id_of(micros, seq));
    }
    id
}

/// Request ids are unique within a process: different sequence numbers make different ids,
/// whatever the clock says.
pub proof fn law_request_ids_unique(m1: u128, s1: u64, m2: u128, s2: u64)
    requires
        request_id_of(m1, s1) == request_id_of(m2, s2),
    ensures
        m1 == m2,
        s1 == s2,
{
    let a = numeral(m1 as nat, 36);
    let b = numeral(s1 as nat, 16);
    let c = numeral(m2 as nat, 36);
    let d = numeral(s2 as nat, 16);
    lemma_numeral_digits(m1 as nat, 36);
    lemma_numeral_digits(m2 as nat, 36);
    lemma_hyphen_splits(a, b, c, d);
    lemma_numeral_injective(m1 as nat, m2 as nat, 36);
    lemma_numeral_injective(s1 as nat, s2 as nat, 16);
}

/// What is logged of a request when it completes.
#[derive(Debug)]
pub struct RequestLog {
    pub op: &'static str,
    pub request_id: String,
    /// The resolved HDFS path, once known.
    pub hdfs_path: Option<String>,
    pub bytes_served: u64,
    /// Whether the request produced a successful response.
    pub ok: bool,
}

impl RequestLog {
    /// The log of a request that has just begun.
    pub fn new(op: &'static str, request_id: String) -> (r: Self)
        ensures
            r == (RequestLog { op, request_id, hdfs_path: None, bytes_served: 0, ok: false }),
    {
        RequestLog { op, request_id, hdfs_path: None, bytes_served: 0, ok: false }
    }

    /// Record the resolved HDFS path.
    pub fn set_path(&mut self, path: String)
        ensures
            *final(self) == (RequestLog { hdfs_path: Some(path), ..*old(self) }),
    {
        self.hdfs_path = Some(path);
    }

    /// Record the number of bytes served.
    pub fn set_bytes(&mut self, n: u64)
        ensures
            *final(self) == (RequestLog { bytes_served: n, ..*old(self) }),
    {
        self.bytes_served = n;
    }

    /// The id of the request, also attached to its response.
    pub fn request_id(&self) -> (s: &str)
        ensures
            s@ == self.request_id@,
    {
        self.request_id.as_str()
    }

    /// Mark the request as having produced a successful response.
    pub fn mark_ok(&mut self)
        ensures
            *final(self) == (RequestLog { ok: true, ..*old(self) }),
    {
        self.ok = true;
    }

    /// Attach the id of the request to an error, so that every error response carries it.
    pub fn attach(&self, err: S3Error) -> (e: S3Error)
        ensures
            e == (S3Error { request_id: Some(self.request_id), ..err }),
    {
        S3Error { request_id: Some(self.request_id.clone()), ..err }
    }

    /// The result of the request, its id attached to an error.
    pub fn finish<T>(&self, result: Result<T, S3Error>) -> (r: Result<T, S3Error>)
        ensures
            match result {
                Ok(v) => r == Ok::<T, S3Error>(v),
                Err(e) => r == Err::<T, S3Error>(
                    (S3Error { request_id: Some(self.request_id), ..e }),
                ),
            },
    {
        match result {
            Ok(v) => Ok(v),
            Err(e) => Err(self.attach(e)),
        }
    }
}

/// A request id tells when a request came and which one it was: the microseconds in base 36, a
/// hyphen, the sequence number in hexadecimal.
pub proof fn law_request_id_text(micros: u128, seq: u64, id: String, time: String, number: String)
    requires
        call_ensures(new_request_id, (micros, seq), id),
        call_ensures(numeral_text, (micros, 36u8), time),
        call_ensures(numeral_text, (seq as u128, 16u8), number),
    ensures
        id@ == time@ + "-"@ + number@,
{
    reveal_strlit("-");
    assert(id@ =~= time@ + "-"@ + number@);
}

/// Two requests of a process never share an id.
pub proof fn law_requests_have_their_own_ids(
    m1: u128,
    s1: u64,
    first: String,
    m2: u128,
    s2: u64,
    second: String,
)
    requires
        call_ensures(new_request_id, (m1, s1), first),
        call_ensures(new_request_id, (m2, s2), second),
        m1 != m2 || s1 != s2,
    ensures
        first@ != second@,
{
    if first@ == second@ {
        law_request_ids_unique(m1, s1, m2, s2);
    }
}

/// The log of a request starts out empty and unsuccessful.
pub proof fn law_log_begins(op: &'static str, id: String, log: RequestLog, text: &str)
    requires
        call_ensures(RequestLog::new, (op, id), log),
        call_ensures(RequestLog::request_id, (&log,), text),
    ensures
        log.op == op,
        log.request_id == id,
        text@ == id@,
        log.hdfs_path is None,
        log.bytes_served == 0,
        !log.ok,
{
}

/// Recording the path changes the path and nothing else.
pub proof fn law_path_is_recorded(log: &mut RequestLog, path: String)
    requires
        call_ensures(RequestLog::set_path, (log, path), ()),
    ensures
        final(log).hdfs_path == Some(path),
        final(log).op == old(log).op,
        final(log).request_id == old(log).request_id,
        final(log).bytes_served == old(log).bytes_served,
        final(log).ok == old(log).ok,
{
}

/// Recording the bytes served changes their number and nothing else.
pub proof fn law_bytes_are_recorded(log: &mut RequestLog, n: u64)
    requires
        call_ensures(RequestLog::set_bytes, (log, n), ()),
    ensures
        final(log).bytes_served == n,
        final(log).op == old(log).op,
        final(log).request_id == old(log).request_id,
        final(log).hdfs_path == old(log).hdfs_path,
        final(log).ok == old(log).ok,
{
}

/// Recording success changes that and nothing else.
pub proof fn law_success_is_recorded(log: &mut RequestLog)
    requires
        call_ensures(RequestLog::mark_ok, (log,), ()),
    ensures
        final(log).ok,
        final(log).op == old(log).op,
        final(log).request_id == old(log).request_id,
        final(log).hdfs_path == old(log).hdfs_path,
        final(log).bytes_served == old(log).bytes_served,
{
}

/// An error response carries the id of its request, and is otherwise the error that it was.
pub proof fn law_errors_carry_the_id(log: &RequestLog, err: S3Error, e: S3Error)
    requires
        call_ensures(RequestLog::attach, (log, err), e),
    ensures
        e.request_id == Some(log.request_id),
        e.code == err.code,
        e.message == err.message,
        e.source == err.source,
{
}

/// The end of a request: a success is passed on as it is, an error carries the id.
pub proof fn law_results_are_passed_on<T>(
    log: &RequestLog,
    result: Result<T, S3Error>,
    r: Result<T, S3Error>,
)
    requires
        call_ensures(RequestLog::finish::<T>, (log, result), r),
    ensures
        result matches Ok(v) ==> r == Ok::<T, S3Error>(v),
        result matches Err(err) ==> (r matches Err(e) && e.request_id == Some(log.request_id)
            && e.code == err.code && e.message == err.message && e.source == err.source),
{
}

} // verus!
