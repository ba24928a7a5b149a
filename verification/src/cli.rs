//! What a run is configured with.

use vstd::prelude::*;

verus! {

/// The options of a run.
#[derive(Debug)]
pub struct CliArg {
    /// How many batches may be probed at a time.
    pub threads: usize,
    /// The target URL, with its scheme and, if any, a path.
    pub url: String,
    /// The file, or the directory of files, of candidate addresses.
    pub ip_path: String,
    /// The file of the candidate store.
    pub db_path: String,
    /// Whether to log at debug level.
    pub verbose: bool,
    /// How many addresses a batch holds at most; a run with no more than
    /// that pending probes them as one batch.
    pub max_ip_count: usize,
    /// The file that holds the reference document.
    pub compare: String,
    /// The time allowed for one request, in seconds.
    pub timeout: u64,
    /// The pause between the starts of two batches, in milliseconds.
    pub worker_interval: u64,
}

impl CliArg {
    /// The options for a target and a source of candidates, with every
    /// other option at its default: four threads, the store in
    /// `main.sqlite`, quiet logging, batches of a hundred, the reference
    /// document in `check.src`, one second for a request, and a fifth of a
    /// second between the starts of two batches.
    pub fn new(url: String, ip_path: String) -> (args: CliArg)
        ensures
            args.url == url,
            args.ip_path == ip_path,
            args.threads == 4,
            args.db_path@ == "main.sqlite"@,
            !args.verbose,
            args.max_ip_count == 100,
            args.compare@ == "check.src"@,
            args.timeout == 1,
            args.worker_interval == 200,
    {
        CliArg {
            threads: 4,
            url,
            ip_path,
            db_path: "main.sqlite".to_owned(),
            verbose: false,
            max_ip_count: 100,
            compare: "check.src".to_owned(),
            timeout: 1,
            worker_interval: 200,
        }
    }
}

} // verus!
