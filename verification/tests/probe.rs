use front_scan::hash::{reference_source, same_digest, ReferenceHash, ReferenceSource};
use front_scan::scan::{request_url, Fetch, Probe, Scheme, Worker};

const REFERENCE: &[u8] = b"the expected content\n";

fn body(bytes: &[u8]) -> Fetch {
    Fetch::Body(bytes.to_vec())
}

fn run(https: &Fetch, http: &Fetch) -> ((bool, bool), Vec<Scheme>) {
    let reference = ReferenceHash::of_document(REFERENCE);
    let mut probe = Probe::start();
    let mut asked = Vec::new();
    while let Some(scheme) = probe.request() {
        asked.push(scheme);
        let answer = match scheme {
            Scheme::Https => https,
            Scheme::Http => http,
        };
        probe = probe.advance(answer, &reference);
    }
    (probe.outcome().unwrap(), asked)
}

#[test]
fn digest_of_nothing_is_the_known_one() {
    let hash = ReferenceHash::of_document(b"");
    let expected: [u8; 32] = [
        0xaf, 0x13, 0x49, 0xb9, 0xf5, 0xf9, 0xa1, 0xa6, 0xa0, 0x40, 0x4d, 0xea, 0x36, 0xdc, 0xc9,
        0x49, 0x9b, 0xcb, 0x25, 0xc9, 0xad, 0xc1, 0x12, 0xb7, 0xcc, 0x9a, 0x93, 0xca, 0xe4, 0x1f,
        0x32, 0x62,
    ];
    assert_eq!(hash.as_bytes(), &expected);
}

#[test]
fn digest_is_that_of_the_hasher() {
    for doc in [&b""[..], b"a", REFERENCE, &[0u8; 5000][..]] {
        let hash = ReferenceHash::of_document(doc);
        assert_eq!(hash.as_bytes(), blake3::hash(doc).as_bytes());
        let mut hasher = blake3::Hasher::new();
        hasher.update(doc);
        assert_eq!(hash.as_bytes(), hasher.finalize().as_bytes());
    }
}

#[test]
fn reference_matches_its_document_only() {
    let hash = ReferenceHash::of_document(REFERENCE);
    assert!(hash.matches(REFERENCE));
    assert!(!hash.matches(b"the expected content"));
    assert!(!hash.matches(b""));
    assert!(!hash.matches(hash.as_bytes()));
}

#[test]
fn reference_from_bytes_keeps_them() {
    let bytes = *blake3::hash(REFERENCE).as_bytes();
    let hash = ReferenceHash::from_bytes(bytes);
    assert_eq!(hash.as_bytes(), &bytes);
    assert!(hash.matches(REFERENCE));
}

#[test]
fn digests_are_compared_byte_for_byte() {
    let a = [7u8; 32];
    let mut b = [7u8; 32];
    assert!(same_digest(&a, &b));
    b[31] = 8;
    assert!(!same_digest(&a, &b));
    b[31] = 7;
    b[0] = 0;
    assert!(!same_digest(&a, &b));
}

#[test]
fn reference_comes_from_where_the_file_allows() {
    assert_eq!(reference_source(false, false), ReferenceSource::Fetch);
    assert_eq!(reference_source(false, true), ReferenceSource::Fetch);
    assert_eq!(reference_source(true, true), ReferenceSource::Refuse);
    assert_eq!(reference_source(true, false), ReferenceSource::Cached);
}

#[test]
fn content_on_port_80_only() {
    assert_eq!(
        run(&Fetch::Failed, &body(REFERENCE)),
        ((false, true), vec![Scheme::Https, Scheme::Http])
    );
    assert_eq!(
        run(&body(b"something else"), &body(REFERENCE)),
        ((false, true), vec![Scheme::Https, Scheme::Http])
    );
}

#[test]
fn content_on_port_443_only() {
    assert_eq!(run(&body(REFERENCE), &Fetch::Failed), ((true, false), vec![Scheme::Https]));
    assert_eq!(run(&body(REFERENCE), &body(b"other")), ((true, false), vec![Scheme::Https]));
}

#[test]
fn content_on_both_ports_counts_as_https() {
    assert_eq!(run(&body(REFERENCE), &body(REFERENCE)), ((true, false), vec![Scheme::Https]));
}

#[test]
fn content_on_neither_port() {
    assert_eq!(
        run(&body(b"substituted"), &body(b"substituted")),
        ((false, false), vec![Scheme::Https, Scheme::Http])
    );
}

#[test]
fn no_answer_on_either_port() {
    assert_eq!(
        run(&Fetch::Failed, &Fetch::Failed),
        ((false, false), vec![Scheme::Https, Scheme::Http])
    );
}

#[test]
fn probe_steps_by_what_the_request_brought() {
    assert_eq!(Probe::start(), Probe::Https);
    assert_eq!(Probe::Https.step(true), Probe::Done { https_ok: true, http_ok: false });
    assert_eq!(Probe::Https.step(false), Probe::Http);
    assert_eq!(Probe::Http.step(true), Probe::Done { https_ok: false, http_ok: true });
    assert_eq!(Probe::Http.step(false), Probe::Done { https_ok: false, http_ok: false });
    let done = Probe::Done { https_ok: true, http_ok: false };
    assert_eq!(done.step(true), done);
    assert_eq!(done.step(false), done);
    assert_eq!(done.request(), None);
    assert_eq!(done.outcome(), Some((true, false)));
    assert_eq!(Probe::Https.outcome(), None);
    assert_eq!(Probe::Http.outcome(), None);
}

#[test]
fn requests_go_to_the_ports_of_their_scheme() {
    assert_eq!(Scheme::Https.port(), 443);
    assert_eq!(Scheme::Http.port(), 80);
}

#[test]
fn request_url_joins_scheme_host_and_path() {
    assert_eq!(request_url(Scheme::Https, "example.com", "a/b.txt"), "https://example.com/a/b.txt");
    assert_eq!(request_url(Scheme::Http, "example.com", ""), "http://example.com/");
    assert_eq!(request_url(Scheme::Http, "", "x"), "http:///x");
}

#[test]
fn worker_passes_over_what_it_cannot_probe() {
    let batch: Vec<String> =
        ["1.1.1.1", "nonsense", "2.2.2.2", "3.3.3.3", "4.4.4.444", "5.5.5.5"]
            .iter()
            .map(|s| s.to_string())
            .collect();
    let mut worker = Worker::new(batch);
    let mut targets = Vec::new();
    let answers = [Some((true, false)), None, Some((false, true)), Some((false, false))];
    let mut i = 0;
    while let Some(addr) = worker.target() {
        targets.push(addr);
        worker.report(answers[i]);
        i += 1;
    }
    assert_eq!(targets, vec![(1, 1, 1, 1), (2, 2, 2, 2), (3, 3, 3, 3), (5, 5, 5, 5)]);
    assert_eq!(
        worker.finish(),
        vec![
            ("1.1.1.1".to_string(), false, true),
            ("3.3.3.3".to_string(), true, false),
            ("5.5.5.5".to_string(), false, false),
        ]
    );
}

#[test]
fn worker_target_does_not_move_on_by_itself() {
    let mut worker = Worker::new(vec!["x".to_string(), "1.2.3.4".to_string()]);
    assert_eq!(worker.target(), Some((1, 2, 3, 4)));
    assert_eq!(worker.target(), Some((1, 2, 3, 4)));
    worker.report(Some((true, false)));
    assert_eq!(worker.target(), None);
    worker.report(Some((true, false)));
    assert_eq!(worker.target(), None);
    assert_eq!(worker.finish(), vec![("1.2.3.4".to_string(), false, true)]);
}

#[test]
fn worker_with_nothing_to_probe() {
    let mut worker = Worker::new(Vec::new());
    assert_eq!(worker.target(), None);
    assert!(worker.finish().is_empty());
    let mut worker = Worker::new(vec!["".to_string(), "a.b.c.d".to_string()]);
    worker.report(Some((true, true)));
    assert_eq!(worker.target(), None);
    assert!(worker.finish().is_empty());
}
