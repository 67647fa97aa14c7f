//! The reachability scan: a literal IPv4 host and a list of ports, probed
//! one port at a time, in order. The connection attempts themselves are
//! made by the caller; a session decides which port comes next and what
//! each outcome is recorded as.
use vstd::prelude::*;

use crate::ports::{
    find_char, first_index_of, lemma_first_index, parse_number, port_number,
};

verus! {

/// Returned when the target is not a literal IPv4 address.
#[derive(Debug, Clone, Copy, PartialEq, Eq, Structural)]
pub struct InvalidHostError;

/// One octet of a dotted-quad address: one to three digits, no leading
/// zero unless the octet is `0` itself, at most 255.
pub open spec fn octet_number(t: Seq<char>) -> Option<u8> {
    if t.len() <= 3 && (t.len() == 1 || (t.len() > 1 && t[0] != '0')) {
        match port_number(t) {
            Some(v) => if v <= 255 {
                Some(v as u8)
            } else {
                None
            },
            None => None,
        }
    } else {
        None
    }
}

/// The octets of the dot-separated parts of `s`, if each is an octet.
pub open spec fn spec_octets(s: Seq<char>) -> Option<Seq<u8>>
    decreases s.len(),
{
    let j = first_index_of(s, '.');
    if j < s.len() {
        match (octet_number(s.take(j as int)), spec_octets(s.skip(j + 1 as int))) {
            (Some(o), Some(rest)) => Some(seq![o] + rest),
            _ => None,
        }
    } else {
        match octet_number(s) {
            Some(o) => Some(seq![o]),
            None => None,
        }
    }
}

/// The address that `s` writes as a dotted quad: exactly four octets.
pub open spec fn spec_host(s: Seq<char>) -> Option<Seq<u8>> {
    match spec_octets(s) {
        Some(o) => if o.len() == 4 {
            Some(o)
        } else {
            None
        },
        None => None,
    }
}

/// An IPv4 address.
#[derive(Debug, Clone, Copy, PartialEq, Eq)]
pub struct Ipv4Host {
    pub octets: [u8; 4],
}

/// The octet written in `s[lo..hi]`, if it is one.
fn parse_octet(s: &str, lo: usize, hi: usize) -> (r: Option<u8>)
    requires
        lo <= hi <= s@.len(),
    ensures
        r == octet_number(s@.subrange(lo as int, hi as int)),
{
    let ghost t = s@.subrange(lo as int, hi as int);
    let len = hi - lo;
    if len > 3 || len == 0 {
        return None;
    }
    if len > 1 && s.get_char(lo) == '0' {
        assert(t[0] == s@[lo as int]);
        return None;
    }
    if len > 1 {
        assert(t[0] == s@[lo as int]);
    }
    match parse_number(s, lo, hi) {
        Some(v) => if v <= 255 {
            Some(v as u8)
        } else {
            None
        },
        None => None,
    }
}

/// Reads a literal IPv4 address, four decimal octets separated by dots.
/// Host names and IPv6 literals are refused.
pub fn parse_host(host: &str) -> (r: Result<Ipv4Host, InvalidHostError>)
    ensures
        r is Ok <==> spec_host(host@) is Some,
        r matches Ok(h) ==> spec_host(host@) == Some(h.octets@),
{
    let n = host.unicode_len();
    let mut out: Vec<u8> = Vec::new();
    let mut start: usize = 0;
    proof {
        assert(host@.skip(0) =~= host@);
        if let Some(all) = spec_octets(host@) {
            assert(Seq::<u8>::empty() + all =~= all);
        }
    }
    loop
        invariant
            n == host@.len(),
            start <= n,
            spec_octets(host@) == match spec_octets(host@.skip(start as int)) {
                Some(rest) => Some(out@ + rest),
                None => None::<Seq<u8>>,
            },
        decreases n - start,
    {
        let j = find_char(host, '.', start, n);
        let ghost u = host@.skip(start as int);
        let ghost before = out@;
        proof {
            assert forall|k: int| 0 <= k < j - start implies u[k] != '.' by {
                assert(u[k] == host@[start + k]);
            }
            if j < n {
                assert(u[j - start] == host@[j as int]);
            }
            lemma_first_index(u, '.', j - start);
            assert(u.take(j - start) =~= host@.subrange(start as int, j as int));
            if j < n {
                assert(u.skip(j - start + 1) =~= host@.skip(j + 1));
            } else {
                assert(u =~= host@.subrange(start as int, j as int));
            }
        }
        let o = match parse_octet(host, start, j) {
            Some(o) => o,
            None => {
                return Err(InvalidHostError);
            },
        };
        out.push(o);
        proof {
            if j < n {
                if let Some(rest) = spec_octets(host@.skip(j + 1)) {
                    assert(before + (seq![o] + rest) =~= out@ + rest);
                }
            } else {
                assert(before + seq![o] =~= out@);
            }
        }
        if j == n {
            if out.len() != 4 {
                return Err(InvalidHostError);
            }
            let h = Ipv4Host { octets: [out[0], out[1], out[2], out[3]] };
            assert(h.octets@ =~= out@);
            return Ok(h);
        }
        start = j + 1;
    }
}

/// What one connection attempt came to.
#[derive(Debug, PartialEq, Eq)]
pub enum PortStatus {
    /// The connection was accepted.
    Open,
    /// The connection failed, for the reason given.
    Unreachable(String),
}

/// The status of one port: `Ok` when open, `Err(reason)` when unreachable.
pub type StatusModel = Result<(), Seq<char>>;

impl View for PortStatus {
    type V = StatusModel;

    open spec fn view(&self) -> StatusModel {
        match self {
            PortStatus::Open => Ok(()),
            PortStatus::Unreachable(reason) => Err(reason@),
        }
    }
}

/// The status that the outcome of a connection attempt is recorded as.
pub open spec fn status_of(outcome: Result<(), String>) -> StatusModel {
    match outcome {
        Ok(()) => Ok(()),
        Err(reason) => Err(reason@),
    }
}

/// The result of probing one port.
#[derive(Debug, PartialEq, Eq)]
pub struct PortResult {
    pub port: u16,
    pub status: PortStatus,
}

impl View for PortResult {
    type V = (u16, StatusModel);

    open spec fn view(&self) -> (u16, StatusModel) {
        (self.port, self.status@)
    }
}

/// A scan in progress: the ports to probe, in order, and the results of
/// those probed so far. Every port gets a result, whatever came before it.
pub struct ScanSession {
    host: Ipv4Host,
    ports: Vec<u16>,
    results: Vec<PortResult>,
}

impl ScanSession {
    pub closed spec fn host_octets(&self) -> Seq<u8> {
        self.host.octets@
    }

    pub closed spec fn port_list(&self) -> Seq<u16> {
        self.ports@
    }

    pub closed spec fn result_list(&self) -> Seq<(u16, StatusModel)> {
        self.results@.map_values(|r: PortResult| r@)
    }

    /// The results so far belong to the first ports, one each, in order.
    pub open spec fn wf(&self) -> bool {
        &&& self.result_list().len() <= self.port_list().len()
        &&& forall|k: int|
            0 <= k < self.result_list().len() ==> #[trigger] self.result_list()[k].0
                == self.port_list()[k]
    }

    pub open spec fn is_complete(&self) -> bool {
        self.result_list().len() == self.port_list().len()
    }

    /// Starts a scan of `ports` on `host`, which must be a literal IPv4
    /// address; nothing is probed when it is not.
    pub fn new(host: &str, ports: Vec<u16>) -> (r: Result<ScanSession, InvalidHostError>)
        ensures
            r is Ok <==> spec_host(host@) is Some,
            r matches Ok(s) ==> s.wf() && s.host_octets() == spec_host(host@).unwrap()
                && s.port_list() == ports@ && s.result_list().len() == 0,
    {
        match parse_host(host) {
            Ok(h) => {
                let s = ScanSession { host: h, ports, results: Vec::new() };
                assert(s.result_list() =~= Seq::empty());
                Ok(s)
            },
            Err(e) => Err(e),
        }
    }

    pub fn host(&self) -> (r: Ipv4Host)
        ensures
            r.octets@ == self.host_octets(),
    {
        self.host
    }

    /// The next port to probe, or `None` once every port has a result.
    pub fn next_port(&self) -> (r: Option<u16>)
        requires
            self.wf(),
        ensures
            self.is_complete() <==> r is None,
            r matches Some(p) ==> p == self.port_list()[self.result_list().len() as int],
    {
        if self.results.len() < self.ports.len() {
            Some(self.ports[self.results.len()])
        } else {
            None
        }
    }

    /// Records the outcome of the attempt on the next port: `Ok` when the
    /// connection was accepted, `Err(reason)` when it failed. A failure is
    /// recorded as that port's result and the scan goes on with the rest.
    pub fn record(&mut self, outcome: Result<(), String>)
        requires
            old(self).wf(),
            !old(self).is_complete(),
        ensures
            final(self).wf(),
            final(self).host_octets() == old(self).host_octets(),
            final(self).port_list() == old(self).port_list(),
            final(self).result_list() == old(self).result_list().push(
                (old(self).port_list()[old(self).result_list().len() as int], status_of(outcome)),
            ),
    {
        let port = self.ports[self.results.len()];
        let status = match outcome {
            Ok(()) => PortStatus::Open,
            Err(reason) => PortStatus::Unreachable(reason),
        };
        let res = PortResult { port, status };
        self.results.push(res);
        assert(self.result_list() =~= old(self).result_list().push(res@));
    }

    /// The results so far, in the order the ports were probed.
    pub fn results(&self) -> (r: &Vec<PortResult>)
        ensures
            r@.map_values(|x: PortResult| x@) == self.result_list(),
    {
        &self.results
    }
}

/// A failed attempt does not end the scan: recording it as `record` does
/// gives that port the result `Unreachable(reason)`, and unless it was the
/// last port the session still has ports to probe.
pub proof fn law_failure_continues_scan(before: ScanSession, after: ScanSession, reason: String)
    requires
        before.wf(),
        !before.is_complete(),
        after.port_list() == before.port_list(),
        after.result_list() == before.result_list().push(
            (before.port_list()[before.result_list().len() as int], status_of(Err(reason))),
        ),
    ensures
        after.wf(),
        after.result_list().last() == (before.port_list()[before.result_list().len() as int], Err::<(), Seq<char>>(reason@)),
        before.result_list().len() + 1 < before.port_list().len() ==> !after.is_complete(),
{
    assert forall|k: int| 0 <= k < after.result_list().len() implies #[trigger] after.result_list()[k].0
        == after.port_list()[k] by {
        if k < before.result_list().len() {
            assert(after.result_list()[k] == before.result_list()[k]);
        }
    }
}

/// A finished scan has exactly one result per port, in the order given.
pub proof fn law_complete_scan_covers_every_port(s: ScanSession)
    requires
        s.wf(),
        s.is_complete(),
    ensures
        s.result_list().len() == s.port_list().len(),
        forall|k: int| 0 <= k < s.port_list().len() ==> #[trigger] s.result_list()[k].0 == s.port_list()[k],
{
}

} // verus!
