//! The decisions of a scan: what one probe asks for and makes of the
//! answers, which addresses of a batch yield a result, and when the pool
//! starts a batch or waits for one.

use crate::hash::{blake3_digest, ReferenceHash};
use crate::input::{ipv4, parse_ipv4};
use vstd::prelude::*;

verus! {

/// The two ways a candidate is asked for the content.
#[derive(Clone, Copy, Debug, PartialEq, Eq, Structural)]
pub enum Scheme {
    /// Over TLS, on port 443.
    Https,
    /// In the clear, on port 80.
    Http,
}

/// What a request's URL begins with.
pub open spec fn scheme_prefix(scheme: Scheme) -> Seq<char> {
    match scheme {
        Scheme::Https => "https://"@,
        Scheme::Http => "http://"@,
    }
}

impl Scheme {
    /// The port on which the candidate is contacted.
    pub fn port(self) -> (port: u16)
        ensures
            port == match self {
                Scheme::Https => 443u16,
                Scheme::Http => 80u16,
            },
    {
        match self {
            Scheme::Https => 443,
            Scheme::Http => 80,
        }
    }
}

/// The URL to ask for: the scheme, the target host, a `/` and the path.
pub fn request_url(scheme: Scheme, host: &str, path: &str) -> (url: String)
    ensures
        url@ == scheme_prefix(scheme) + host@ + seq!['/'] + path@,
{
    let mut url = match scheme {
        Scheme::Https => "https://".to_owned(),
        Scheme::Http => "http://".to_owned(),
    };
    proof {
        reveal_strlit("/");
    }
    url.append(host);
    url.append("/");
    url.append(path);
    assert("/"@ =~= seq!['/']);
    url
}

/// What one request came to.
#[derive(Debug)]
pub enum Fetch {
    /// A response arrived, with this body.
    Body(Vec<u8>),
    /// No response: the connection, the handshake or the read failed, or
    /// the time ran out.
    Failed,
}

/// Whether an answer carries the reference document.
pub open spec fn fetch_matches(answer: Fetch, reference: Seq<u8>) -> bool {
    match answer {
        Fetch::Body(body) => blake3_digest(body@) == reference,
        Fetch::Failed => false,
    }
}

/// Where the probe of one candidate stands.
#[derive(Clone, Copy, Debug, PartialEq, Eq, Structural)]
pub enum Probe {
    /// The request over https is to be made, or under way.
    Https,
    /// The request over https did not match; the one over http is to be
    /// made, or under way.
    Http,
    /// The probe is over, with these flags.
    Done { https_ok: bool, http_ok: bool },
}

/// What a whole probe comes to, given whether each request would bring the
/// reference document: https counts first, and http only where https did not.
pub open spec fn probe_outcome(https_good: bool, http_good: bool) -> (bool, bool) {
    (https_good, !https_good && http_good)
}

impl Probe {
    /// Where the probe stands after the request it was waiting for either
    /// brought the reference document (`good`) or did not.
    pub open spec fn after(self, good: bool) -> Probe {
        match self {
            Probe::Https => if good {
                Probe::Done { https_ok: true, http_ok: false }
            } else {
                Probe::Http
            },
            Probe::Http => Probe::Done { https_ok: false, http_ok: good },
            Probe::Done { .. } => self,
        }
    }

    /// A probe begins with the request over https.
    pub fn start() -> (probe: Probe)
        ensures
            probe == Probe::Https,
    {
        Probe::Https
    }

    /// The request to make next, if the probe is not over.
    pub fn request(self) -> (scheme: Option<Scheme>)
        ensures
            scheme == match self {
                Probe::Https => Some(Scheme::Https),
                Probe::Http => Some(Scheme::Http),
                Probe::Done { .. } => None::<Scheme>,
            },
    {
        match self {
            Probe::Https => Some(Scheme::Https),
            Probe::Http => Some(Scheme::Http),
            Probe::Done { .. } => None,
        }
    }

    /// Takes in whether the request that was made brought the reference
    /// document.
    pub fn step(self, good: bool) -> (next: Probe)
        ensures
            next == self.after(good),
    {
        match self {
            Probe::Https => if good {
                Probe::Done { https_ok: true, http_ok: false }
            } else {
                Probe::Http
            },
            Probe::Http => Probe::Done { https_ok: false, http_ok: good },
            Probe::Done { .. } => self,
        }
    }

    /// Takes in what the request that was made came to. A failed request
    /// and a body other than the reference document count alike.
    pub fn advance(self, answer: &Fetch, reference: &ReferenceHash) -> (next: Probe)
        ensures
            next == self.after(fetch_matches(*answer, reference@)),
    {
        let good = match answer {
            Fetch::Body(body) => reference.matches(body.as_slice()),
            Fetch::Failed => false,
        };
        self.step(good)
    }

    /// The flags `(https_ok, http_ok)` of a probe that is over.
    pub fn outcome(self) -> (flags: Option<(bool, bool)>)
        ensures
            flags == match self {
                Probe::Done { https_ok, http_ok } => Some((https_ok, http_ok)),
                _ => None::<(bool, bool)>,
            },
    {
        match self {
            Probe::Done { https_ok, http_ok } => Some((https_ok, http_ok)),
            _ => None,
        }
    }
}

/// A probe is over after the request over https where that brought the
/// reference document, and after the request over http otherwise; its flags
/// are then those of `probe_outcome`, never both set.
pub proof fn law_probe_order(https_good: bool, http_good: bool)
    ensures
        https_good ==> Probe::Https.after(https_good) == (Probe::Done {
            https_ok: true,
            http_ok: false,
        }),
        !https_good ==> Probe::Https.after(https_good) == Probe::Http,
        Probe::Http.after(http_good) == (Probe::Done { https_ok: false, http_ok: http_good }),
        ({
            let last = if https_good {
                Probe::Https.after(https_good)
            } else {
                Probe::Https.after(https_good).after(http_good)
            };
            last == (Probe::Done {
                https_ok: probe_outcome(https_good, http_good).0,
                http_ok: probe_outcome(https_good, http_good).1,
            })
        }),
        !(probe_outcome(https_good, http_good).0 && probe_outcome(https_good, http_good).1),
{
}

/// The first place at or after `from` where `ips` holds a dotted IPv4
/// address; `ips.len()` where there is none.
pub open spec fn next_readable(ips: Seq<Seq<char>>, from: int) -> int
    decreases ips.len() - from,
{
    if from < 0 || from >= ips.len() {
        ips.len() as int
    } else if ipv4(ips[from]) is Some {
        from
    } else {
        next_readable(ips, from + 1)
    }
}

/// The row that records a probe's flags `(https_ok, http_ok)` for `ip`:
/// the address, then whether http works, then whether https does.
pub open spec fn outcome_row(ip: Seq<char>, flags: (bool, bool)) -> (Seq<char>, bool, bool) {
    (ip, flags.1, flags.0)
}

/// A worker's state as plain values.
pub struct WorkerView {
    /// The addresses of the batch, in the order in which they are probed.
    pub ips: Seq<Seq<char>>,
    /// How many of them have been dealt with.
    pub next: int,
    /// The rows gathered so far.
    pub rows: Seq<(Seq<char>, bool, bool)>,
}

impl WorkerView {
    /// The place of the address that is probed next; `ips.len()` when the
    /// batch is done.
    pub open spec fn at(self) -> int {
        next_readable(self.ips, self.next)
    }

    /// The state after the probe of the address at `at()` has ended, with
    /// flags `(https_ok, http_ok)` or, where it could not be set up, with
    /// none: a row is gathered in the first case only. Nothing changes
    /// when the batch is done.
    pub open spec fn reported(self, flags: Option<(bool, bool)>) -> WorkerView {
        let at = self.at();
        if at >= self.ips.len() {
            WorkerView { next: self.ips.len() as int, ..self }
        } else {
            WorkerView {
                next: at + 1,
                rows: match flags {
                    Some(flags) => self.rows.push(outcome_row(self.ips[at], flags)),
                    None => self.rows,
                },
                ..self
            }
        }
    }
}

/// One batch of addresses on its way through the probes, one address after
/// the other. An address that is no dotted IPv4 address is passed over.
pub struct Worker {
    ips: Vec<String>,
    next: usize,
    rows: Vec<(String, bool, bool)>,
}

impl View for Worker {
    type V = WorkerView;

    closed spec fn view(&self) -> WorkerView {
        WorkerView {
            ips: self.ips.deep_view(),
            next: self.next as int,
            rows: self.rows.deep_view(),
        }
    }
}

impl Worker {
    /// Whether the worker is in order: it has dealt with no more addresses
    /// than the batch holds.
    pub open spec fn wf(&self) -> bool {
        0 <= self@.next <= self@.ips.len()
    }

    /// A worker that has the batch `ips` before it.
    pub fn new(ips: Vec<String>) -> (worker: Worker)
        ensures
            worker.wf(),
            worker@ == (WorkerView { ips: ips.deep_view(), next: 0, rows: Seq::empty() }),
    {
        let worker = Worker { ips, next: 0, rows: Vec::new() };
        assert(worker.rows.deep_view() =~= Seq::empty());
        worker
    }

    /// Moves on to the next address that is a dotted IPv4 address.
    fn seek(&mut self) -> (addr: Option<(u8, u8, u8, u8)>)
        requires
            old(self).wf(),
        ensures
            final(self).wf(),
            final(self)@ == (WorkerView { next: old(self)@.at(), ..old(self)@ }),
            final(self)@.at() == final(self)@.next,
            match addr {
                Some(addr) => final(self)@.next < final(self)@.ips.len() && ipv4(
                    final(self)@.ips[final(self)@.next],
                ) == Some(addr),
                None => final(self)@.next == final(self)@.ips.len(),
            },
    {
        while self.next < self.ips.len()
            invariant
                self.wf(),
                self.ips == old(self).ips,
                self.rows == old(self).rows,
                next_readable(self@.ips, self@.next) == old(self)@.at(),
            decreases self.ips.len() - self.next,
        {
            let addr = parse_ipv4(self.ips[self.next].as_str());
            if addr.is_some() {
                return addr;
            }
            self.next += 1;
        }
        None
    }

    /// The address to probe next, as its four parts, or nothing when the
    /// batch is done.
    pub fn target(&mut self) -> (addr: Option<(u8, u8, u8, u8)>)
        requires
            old(self).wf(),
        ensures
            final(self).wf(),
            final(self)@ == (WorkerView { next: old(self)@.at(), ..old(self)@ }),
            match addr {
                Some(addr) => old(self)@.at() < old(self)@.ips.len() && ipv4(
                    old(self)@.ips[old(self)@.at()],
                ) == Some(addr),
                None => old(self)@.at() == old(self)@.ips.len(),
            },
    {
        self.seek()
    }

    /// Takes in how the probe of the address that `target` gave has ended:
    /// with the flags `(https_ok, http_ok)`, or with none where it could
    /// not be set up. Such an address yields no row.
    pub fn report(&mut self, flags: Option<(bool, bool)>)
        requires
            old(self).wf(),
        ensures
            final(self).wf(),
            final(self)@ == old(self)@.reported(flags),
    {
        if self.seek().is_none() {
            return ;
        }
        assert(self.next < self.ips.len());
        if let Some(flags) = flags {
            let ghost before = self.rows.deep_view();
            let ghost row = outcome_row(self@.ips[self@.next], flags);
            self.rows.push((self.ips[self.next].clone(), flags.1, flags.0));
            assert(self.rows.deep_view() =~= before.push(row));
        }
        self.next += 1;
    }

    /// The rows gathered, `(address, http_ok, https_ok)`, in the order of
    /// the batch.
    pub fn finish(self) -> (rows: Vec<(String, bool, bool)>)
        ensures
            rows.deep_view() == self@.rows,
    {
        self.rows
    }
}

/// The rows that a batch yields where `answers` tells, for its dotted IPv4
/// addresses in order, how the probe of each ended: a row for each that
/// ended with flags, in the order of the batch. An address for which there
/// is no answer yet yields nothing, nor does any after it.
pub open spec fn batch_rows(ips: Seq<Seq<char>>, answers: Seq<Option<(bool, bool)>>) -> Seq<
    (Seq<char>, bool, bool),
>
    decreases ips.len(),
{
    if ips.len() == 0 || answers.len() == 0 {
        Seq::empty()
    } else if ipv4(ips[0]) is None {
        batch_rows(ips.drop_first(), answers)
    } else {
        match answers[0] {
            Some(flags) => seq![outcome_row(ips[0], flags)] + batch_rows(
                ips.drop_first(),
                answers.drop_first(),
            ),
            None => batch_rows(ips.drop_first(), answers.drop_first()),
        }
    }
}

impl WorkerView {
    /// The state after the probes of the next addresses have ended as
    /// `answers` tells, one after the other.
    pub open spec fn reported_all(self, answers: Seq<Option<(bool, bool)>>) -> WorkerView
        decreases answers.len(),
    {
        if answers.len() == 0 {
            self
        } else {
            self.reported(answers[0]).reported_all(answers.drop_first())
        }
    }
}

/// Addresses that are no dotted IPv4 addresses take no answer and yield no
/// row.
proof fn lemma_batch_rows_seek(
    ips: Seq<Seq<char>>,
    from: int,
    answers: Seq<Option<(bool, bool)>>,
)
    requires
        0 <= from <= ips.len(),
    ensures
        from <= next_readable(ips, from) <= ips.len(),
        next_readable(ips, from) < ips.len() ==> ipv4(ips[next_readable(ips, from)]) is Some,
        batch_rows(ips.skip(from), answers) == batch_rows(
            ips.skip(next_readable(ips, from)),
            answers,
        ),
    decreases ips.len() - from,
{
    if from < ips.len() && ipv4(ips[from]) is None {
        lemma_batch_rows_seek(ips, from + 1, answers);
        assert(ips.skip(from).drop_first() =~= ips.skip(from + 1));
        assert(ips.skip(from)[0] == ips[from]);
    }
}

/// What a worker has gathered after some answers, beside what it had, are
/// the rows of the addresses it had before it.
proof fn lemma_worker_rows(worker: WorkerView, answers: Seq<Option<(bool, bool)>>)
    requires
        0 <= worker.next <= worker.ips.len(),
    ensures
        worker.reported_all(answers).rows == worker.rows + batch_rows(
            worker.ips.skip(worker.next),
            answers,
        ),
        worker.reported_all(answers).ips == worker.ips,
    decreases answers.len(),
{
    if answers.len() == 0 {
        assert(worker.rows + Seq::empty() =~= worker.rows);
    } else {
        let at = worker.at();
        let next = worker.reported(answers[0]);
        lemma_batch_rows_seek(worker.ips, worker.next, answers);
        lemma_worker_rows(next, answers.drop_first());
        if at >= worker.ips.len() {
            assert(worker.ips.skip(at) =~= Seq::empty());
            assert(next.ips.skip(next.next) =~= Seq::empty());
            assert(worker.rows + Seq::empty() =~= worker.rows);
        } else {
            let left = worker.ips.skip(at);
            assert(left[0] == worker.ips[at]);
            assert(left.drop_first() =~= worker.ips.skip(at + 1));
            let tail = batch_rows(worker.ips.skip(at + 1), answers.drop_first());
            match answers[0] {
                Some(flags) => {
                    let row = outcome_row(worker.ips[at], flags);
                    assert(worker.rows.push(row) + tail =~= worker.rows + (seq![row] + tail));
                },
                None => {},
            }
        }
    }
}

/// A worker that is told how each probe ended gathers the rows of
/// `batch_rows`: one for each dotted IPv4 address whose probe ended with
/// flags, in the order of the batch, with the flags in the order of a row.
pub proof fn law_worker(ips: Seq<Seq<char>>, answers: Seq<Option<(bool, bool)>>)
    ensures
        (WorkerView { ips, next: 0, rows: Seq::empty() }).reported_all(answers).rows == batch_rows(
            ips,
            answers,
        ),
{
    let start = WorkerView { ips, next: 0, rows: Seq::empty() };
    lemma_worker_rows(start, answers);
    assert(ips.skip(0) =~= ips);
    assert(start.rows + batch_rows(ips, answers) =~= batch_rows(ips, answers));
}

} // verus!
