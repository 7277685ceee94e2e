//! Response logging structures for DNS queries.

use vstd::prelude::*;
use vstd::string::StringExecFns;
use crate::protocol::{QueryType, ResultCode};
use crate::text::{decimal, push_decimal};

verus! {

/// Response information logged for each DNS query.
#[derive(Clone, Debug, PartialEq)]
pub struct ResponseLog {
    pub domain_name: String,
    pub query_type: QueryType,
    pub response_time_ms: u64,
    pub answer_count: usize,
    pub authority_count: usize,
    pub response_size: usize,
    pub was_cache_hit: bool,
    pub ttl_values: Vec<u32>,
    pub result_code: ResultCode,
}

/// How a query type is written in a log line: its name, or `UNKNOWN(n)`.
pub open spec fn query_type_text(q: QueryType) -> Seq<char> {
    match q {
        QueryType::UNKNOWN(x) => "UNKNOWN("@ + decimal(x as nat) + ")"@,
        QueryType::A => "A"@,
        QueryType::NS => "NS"@,
        QueryType::CNAME => "CNAME"@,
        QueryType::MX => "MX"@,
        QueryType::AAAA => "AAAA"@,
    }
}

/// How a result code is written in a log line: its name.
pub open spec fn result_code_text(r: ResultCode) -> Seq<char> {
    match r {
        ResultCode::NOERROR => "NOERROR"@,
        ResultCode::FORMERR => "FORMERR"@,
        ResultCode::SERVFAIL => "SERVFAIL"@,
        ResultCode::NXDOMAIN => "NXDOMAIN"@,
        ResultCode::NOTIMP => "NOTIMP"@,
        ResultCode::REFUSED => "REFUSED"@,
    }
}

/// The time-to-live values written in decimal and separated by `, `.
pub open spec fn ttl_items(ts: Seq<u32>) -> Seq<char>
    decreases ts.len(),
{
    if ts.len() == 0 {
        Seq::empty()
    } else if ts.len() == 1 {
        decimal(ts[0] as nat)
    } else {
        ttl_items(ts.drop_last()) + ", "@ + decimal(ts.last() as nat)
    }
}

/// The log line of a response: its domain, type, time, whether it came from the
/// cache, the numbers of answer and authority records, its size, the answers'
/// times to live and the result code.
pub open spec fn log_line(l: ResponseLog) -> Seq<char> {
    "Domain: "@ + l.domain_name@ + " | Type: "@ + query_type_text(l.query_type) + " | Time: "@ + decimal(
        l.response_time_ms as nat,
    ) + "ms | Cache: "@ + (if l.was_cache_hit { "HIT"@ } else { "MISS"@ }) + " | Answers: "@ + decimal(
        l.answer_count as nat,
    ) + " | Authority: "@ + decimal(l.authority_count as nat) + " | Size: "@ + decimal(l.response_size as nat)
        + "B | TTLs: ["@ + ttl_items(l.ttl_values@) + "] | Result: "@ + result_code_text(l.result_code)
}

/// Appends how `q` is written in a log line.
fn push_query_type(out: &mut String, q: QueryType)
    ensures
        final(out)@ == old(out)@ + query_type_text(q),
{
    match q {
        QueryType::UNKNOWN(x) => {
            out.append("UNKNOWN(");
            push_decimal(out, x as u64);
            out.append(")");
        },
        QueryType::A => out.append("A"),
        QueryType::NS => out.append("NS"),
        QueryType::CNAME => out.append("CNAME"),
        QueryType::MX => out.append("MX"),
        QueryType::AAAA => out.append("AAAA"),
    }
}

/// Appends how `r` is written in a log line.
fn push_result_code(out: &mut String, r: ResultCode)
    ensures
        final(out)@ == old(out)@ + result_code_text(r),
{
    match r {
        ResultCode::NOERROR => out.append("NOERROR"),
        ResultCode::FORMERR => out.append("FORMERR"),
        ResultCode::SERVFAIL => out.append("SERVFAIL"),
        ResultCode::NXDOMAIN => out.append("NXDOMAIN"),
        ResultCode::NOTIMP => out.append("NOTIMP"),
        ResultCode::REFUSED => out.append("REFUSED"),
    }
}

/// Appends the time-to-live values, separated by `, `.
fn push_ttls(out: &mut String, ts: &Vec<u32>)
    ensures
        final(out)@ == old(out)@ + ttl_items(ts@),
{
    let ghost start = out@;
    let mut i: usize = 0;
    assert(ts@.take(0) =~= Seq::<u32>::empty());
    assert(out@ =~= start + ttl_items(ts@.take(0)));
    while i < ts.len()
        invariant
            i <= ts@.len(),
            out@ == start + ttl_items(ts@.take(i as int)),
        decreases ts@.len() - i,
    {
        let ghost pre = out@;
        if i > 0 {
            out.append(", ");
        }
        push_decimal(out, ts[i] as u64);
        assert(ts@.take(i + 1).drop_last() =~= ts@.take(i as int));
        assert(out@ =~= start + ttl_items(ts@.take(i + 1)));
        i = i + 1;
    }
    assert(ts@.take(ts@.len() as int) =~= ts@);
}

impl ResponseLog {
    /// The log line of this response.
    pub fn to_string(&self) -> (s: String)
        ensures
            s@ == log_line(*self),
    {
        let mut out = String::new();
        out.append("Domain: ");
        out.append(self.domain_name.as_str());
        out.append(" | Type: ");
        push_query_type(&mut out, self.query_type);
        out.append(" | Time: ");
        push_decimal(&mut out, self.response_time_ms);
        out.append("ms | Cache: ");
        if self.was_cache_hit {
            out.append("HIT");
        } else {
            out.append("MISS");
        }
        out.append(" | Answers: ");
        push_decimal(&mut out, self.answer_count as u64);
        out.append(" | Authority: ");
        push_decimal(&mut out, self.authority_count as u64);
        out.append(" | Size: ");
        push_decimal(&mut out, self.response_size as u64);
        out.append("B | TTLs: [");
        push_ttls(&mut out, &self.ttl_values);
        out.append("] | Result: ");
        push_result_code(&mut out, self.result_code);
        assert(out@ =~= log_line(*self));
        out
    }
}

} // verus!
