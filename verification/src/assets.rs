//! Fetching the source archive of a dictionary: the decisions of the
//! download loop (which URL to try next, when to pause between rounds,
//! when to accept a download and when to give up), and whether a cached
//! archive can be used.
use vstd::prelude::*;

use crate::text::str_eq;

verus! {

/// The MD5 digest of `data` in lowercase hexadecimal.
pub uninterp spec fn md5_hex_of(data: Seq<u8>) -> Seq<char>;

/// The MD5 digest of `data` in lowercase hexadecimal.
///
/// Calls `md5::compute` and formats the digest with `{:x}`; the contract
/// claims that the text depends on the bytes alone. What it is, is named,
/// not stated.
#[verifier::external_body]
pub(crate) fn md5_hex(data: &[u8]) -> (r: String)
    ensures
        r@ == md5_hex_of(data@),
{
    format!("{:x}", md5::compute(data))
}

/// How many rounds over the download URLs are tried.
pub const MAX_ROUND: usize = 3;

/// Where the source archive of a dictionary comes from and where it goes.
pub struct FetchParams {
    /// Dictionary file name.
    pub file_name: &'static str,
    /// Directory of the unpacked source files.
    pub input_dir: &'static str,
    /// Directory of the built dictionary.
    pub output_dir: &'static str,
    /// Lexicon text used in place of the download when building docs.
    pub dummy_input: &'static str,
    /// URLs from which to fetch the archive.
    pub download_urls: &'static [&'static str],
    /// Expected MD5 digest of the archive, in lowercase hexadecimal.
    pub md5_hash: &'static str,
}

/// Where a download stands.
#[derive(Debug, Clone, Copy, PartialEq, Eq, Structural)]
pub enum DownloadStage {
    /// Nothing tried yet.
    Idle,
    /// The URL at `position` of round `round`'s order is being fetched.
    Trying { round: usize, position: usize },
    /// Every URL of round `round` failed; waiting before the next round.
    Pausing { round: usize },
    /// A download with the expected digest was accepted.
    Done,
    /// The download gave up.
    Failed,
}

/// What happened since the last step.
#[derive(Debug, Clone)]
pub enum DownloadEvent {
    /// The download starts.
    Start,
    /// The current URL answered with this content.
    Fetched(Vec<u8>),
    /// The current URL did not answer with content.
    FetchFailed,
    /// The pause between rounds is over.
    Paused,
}

/// Why a download gave up.
#[derive(Debug, Clone, Copy, PartialEq, Eq, Structural)]
pub enum DownloadError {
    /// No URL was given.
    NoUrls,
    /// No URL gave content with the expected digest in any round.
    AllAttemptsFailed,
}

/// What the driver of a download does next.
#[derive(Debug, Clone, Copy, PartialEq, Eq, Structural)]
pub enum DownloadAction {
    /// Fetch the URL at `position` of round `round`'s order (a new order is
    /// drawn when `position` is 0).
    Fetch { round: usize, position: usize },
    /// Wait before the next round.
    Pause,
    /// Keep the content just fetched.
    Accept,
    /// Give up.
    GiveUp(DownloadError),
}

/// An event as a value.
pub enum DownloadEventV {
    /// The download starts.
    Start,
    /// The current URL answered with this content.
    Fetched(Seq<u8>),
    /// The current URL did not answer with content.
    FetchFailed,
    /// The pause between rounds is over.
    Paused,
}

impl DownloadEvent {
    /// The event as a value.
    pub open spec fn view(&self) -> DownloadEventV {
        match self {
            DownloadEvent::Start => DownloadEventV::Start,
            DownloadEvent::Fetched(d) => DownloadEventV::Fetched(d@),
            DownloadEvent::FetchFailed => DownloadEventV::FetchFailed,
            DownloadEvent::Paused => DownloadEventV::Paused,
        }
    }
}

/// The stage after the URL at `position` of round `round` gave nothing
/// usable: the next URL of the round, or a pause after the last one.
pub open spec fn advance_spec(round: usize, position: usize, url_count: usize) -> (DownloadStage, DownloadAction) {
    if position + 1 < url_count {
        (
            DownloadStage::Trying { round, position: (position + 1) as usize },
            DownloadAction::Fetch { round, position: (position + 1) as usize },
        )
    } else {
        (DownloadStage::Pausing { round }, DownloadAction::Pause)
    }
}

/// One step of a download over `url_count` URLs, `max_rounds` rounds and
/// the expected digest `expected`: the next stage and what to do, or `None`
/// when the event does not apply to the stage.
///
/// Starting with no URL gives up at once, and so does starting with no
/// round. Each round tries every URL once, in the round's order; content
/// whose MD5 digest is the expected one is accepted, anything else moves on to
/// the next URL. After the last URL of a round comes a pause, then the next
/// round, or giving up after the last round.
pub open spec fn step_spec(
    stage: DownloadStage,
    event: DownloadEventV,
    url_count: usize,
    max_rounds: usize,
    expected: Seq<char>,
) -> Option<(DownloadStage, DownloadAction)> {
    match (stage, event) {
        (DownloadStage::Idle, DownloadEventV::Start) => if url_count == 0 {
            Some((DownloadStage::Failed, DownloadAction::GiveUp(DownloadError::NoUrls)))
        } else if max_rounds == 0 {
            Some((DownloadStage::Failed, DownloadAction::GiveUp(DownloadError::AllAttemptsFailed)))
        } else {
            Some((DownloadStage::Trying { round: 0, position: 0 }, DownloadAction::Fetch { round: 0, position: 0 }))
        },
        (DownloadStage::Trying { round, position }, DownloadEventV::Fetched(body)) => if md5_hex_of(body) == expected {
            Some((DownloadStage::Done, DownloadAction::Accept))
        } else {
            Some(advance_spec(round, position, url_count))
        },
        (DownloadStage::Trying { round, position }, DownloadEventV::FetchFailed) => Some(
            advance_spec(round, position, url_count),
        ),
        (DownloadStage::Pausing { round }, DownloadEventV::Paused) => if round + 1 < max_rounds {
            Some(
                (
                    DownloadStage::Trying { round: (round + 1) as usize, position: 0 },
                    DownloadAction::Fetch { round: (round + 1) as usize, position: 0 },
                ),
            )
        } else {
            Some((DownloadStage::Failed, DownloadAction::GiveUp(DownloadError::AllAttemptsFailed)))
        },
        _ => None,
    }
}

/// One step of a download; see [`step_spec`].
pub fn download_step(
    stage: DownloadStage,
    event: &DownloadEvent,
    url_count: usize,
    max_rounds: usize,
    expected: &str,
) -> (r: Option<(DownloadStage, DownloadAction)>)
    ensures
        r == step_spec(stage, event@, url_count, max_rounds, expected@),
{
    match (stage, event) {
        (DownloadStage::Idle, DownloadEvent::Start) => {
            if url_count == 0 {
                Some((DownloadStage::Failed, DownloadAction::GiveUp(DownloadError::NoUrls)))
            } else if max_rounds == 0 {
                Some((DownloadStage::Failed, DownloadAction::GiveUp(DownloadError::AllAttemptsFailed)))
            } else {
                Some((DownloadStage::Trying { round: 0, position: 0 }, DownloadAction::Fetch { round: 0, position: 0 }))
            }
        },
        (DownloadStage::Trying { round, position }, DownloadEvent::Fetched(body)) => {
            let digest = md5_hex(body.as_slice());
            if str_eq(digest.as_str(), expected) {
                Some((DownloadStage::Done, DownloadAction::Accept))
            } else {
                Some(advance(round, position, url_count))
            }
        },
        (DownloadStage::Trying { round, position }, DownloadEvent::FetchFailed) => {
            Some(advance(round, position, url_count))
        },
        (DownloadStage::Pausing { round }, DownloadEvent::Paused) => {
            if round < max_rounds && round + 1 < max_rounds {
                Some((DownloadStage::Trying { round: round + 1, position: 0 }, DownloadAction::Fetch { round: round + 1, position: 0 }))
            } else {
                Some((DownloadStage::Failed, DownloadAction::GiveUp(DownloadError::AllAttemptsFailed)))
            }
        },
        _ => None,
    }
}

fn advance(round: usize, position: usize, url_count: usize) -> (r: (DownloadStage, DownloadAction))
    ensures
        r == advance_spec(round, position, url_count),
{
    if position < url_count && position + 1 < url_count {
        (DownloadStage::Trying { round, position: position + 1 }, DownloadAction::Fetch { round, position: position + 1 })
    } else {
        (DownloadStage::Pausing { round }, DownloadAction::Pause)
    }
}

/// Whether a stage can arise from `Idle`: positions stay below the URL count
/// and rounds below the round count.
pub open spec fn stage_ok(stage: DownloadStage, url_count: usize, max_rounds: usize) -> bool {
    match stage {
        DownloadStage::Trying { round, position } => round < max_rounds && position < url_count,
        DownloadStage::Pausing { round } => round < max_rounds && url_count > 0,
        _ => true,
    }
}

/// How many more fetches a download may still ask for from a stage.
pub open spec fn fetch_budget(stage: DownloadStage, url_count: usize, max_rounds: usize) -> int {
    match stage {
        DownloadStage::Idle => max_rounds * url_count,
        DownloadStage::Trying { round, position } => (max_rounds - round) * url_count - position - 1,
        DownloadStage::Pausing { round } => (max_rounds - round - 1) * url_count,
        _ => 0,
    }
}

/// The stage after a run of events from `Idle`, and how many fetches it
/// asked for; events that do not apply change nothing.
pub open spec fn run_spec(
    events: Seq<DownloadEventV>,
    url_count: usize,
    max_rounds: usize,
    expected: Seq<char>,
) -> (DownloadStage, nat)
    decreases events.len(),
{
    if events.len() == 0 {
        (DownloadStage::Idle, 0)
    } else {
        let (stage, fetches) = run_spec(events.drop_last(), url_count, max_rounds, expected);
        match step_spec(stage, events.last(), url_count, max_rounds, expected) {
            Some((next, DownloadAction::Fetch { .. })) => (next, fetches + 1),
            Some((next, _)) => (next, fetches),
            None => (stage, fetches),
        }
    }
}

proof fn lemma_step_budget(
    stage: DownloadStage,
    event: DownloadEventV,
    url_count: usize,
    max_rounds: usize,
    expected: Seq<char>,
)
    requires
        stage_ok(stage, url_count, max_rounds),
        fetch_budget(stage, url_count, max_rounds) >= 0,
    ensures
        match step_spec(stage, event, url_count, max_rounds, expected) {
            Some((next, action)) => {
                &&& stage_ok(next, url_count, max_rounds)
                &&& fetch_budget(next, url_count, max_rounds) >= 0
                &&& fetch_budget(next, url_count, max_rounds) + (if action is Fetch {
                    1int
                } else {
                    0int
                }) <= fetch_budget(stage, url_count, max_rounds)
            },
            None => true,
        },
{
    let u = url_count as int;
    let m = max_rounds as int;
    match stage {
        DownloadStage::Idle => {
            if u > 0 && m > 0 {
                assert(m * u - 1 >= (m - 0) * u - 0 - 1);
                assert((m - 0) * u - 0 - 1 >= 0) by (nonlinear_arith)
                    requires
                        u > 0,
                        m > 0,
                ;
            }
        },
        DownloadStage::Trying { round, position } => {
            let r = round as int;
            let p = position as int;
            assert((m - r) * u == (m - r - 1) * u + u) by (nonlinear_arith);
            assert((m - r - 1) * u >= 0) by (nonlinear_arith)
                requires
                    r < m,
                    u >= 0,
            ;
        },
        DownloadStage::Pausing { round } => {
            let r = round as int;
            if r + 1 < m {
                assert((m - r - 1) * u == (m - (r + 1)) * u);
                assert((m - (r + 1)) * u - 0 - 1 + 1 <= (m - r - 1) * u);
                assert((m - (r + 1)) * u - 0 - 1 >= 0) by (nonlinear_arith)
                    requires
                        r + 1 < m,
                        u > 0,
                ;
            }
        },
        _ => {},
    }
}

/// However the URLs answer, a download asks for at most `max_rounds` times
/// `url_count` fetches.
pub proof fn lemma_fetch_bound(events: Seq<DownloadEventV>, url_count: usize, max_rounds: usize, expected: Seq<char>)
    ensures
        run_spec(events, url_count, max_rounds, expected).1 <= max_rounds * url_count,
{
    lemma_run_budget(events, url_count, max_rounds, expected);
}

proof fn lemma_run_budget(events: Seq<DownloadEventV>, url_count: usize, max_rounds: usize, expected: Seq<char>)
    ensures
        stage_ok(run_spec(events, url_count, max_rounds, expected).0, url_count, max_rounds),
        fetch_budget(run_spec(events, url_count, max_rounds, expected).0, url_count, max_rounds) >= 0,
        run_spec(events, url_count, max_rounds, expected).1 + fetch_budget(
            run_spec(events, url_count, max_rounds, expected).0,
            url_count,
            max_rounds,
        ) <= max_rounds * url_count,
    decreases events.len(),
{
    if events.len() == 0 {
        assert(max_rounds * url_count >= 0) by (nonlinear_arith);
    } else {
        lemma_run_budget(events.drop_last(), url_count, max_rounds, expected);
        let (stage, _) = run_spec(events.drop_last(), url_count, max_rounds, expected);
        lemma_step_budget(stage, events.last(), url_count, max_rounds, expected);
    }
}

/// A download is accepted only on content whose MD5 digest is the expected
/// one.
pub proof fn lemma_accept_needs_digest(
    stage: DownloadStage,
    event: DownloadEventV,
    url_count: usize,
    max_rounds: usize,
    expected: Seq<char>,
)
    ensures
        step_spec(stage, event, url_count, max_rounds, expected) matches Some((_, DownloadAction::Accept))
            ==> event matches DownloadEventV::Fetched(body) && md5_hex_of(body) == expected,
{
}

/// Whether the archive must be downloaded: there is no cached archive, or
/// the MD5 digest of its content is not the expected one.
pub fn needs_download(cached: Option<&[u8]>, expected: &str) -> (r: bool)
    ensures
        r == match cached {
            Some(d) => md5_hex_of(d@) != expected@,
            None => true,
        },
{
    match cached {
        Some(d) => {
            let digest = md5_hex(d);
            !str_eq(digest.as_str(), expected)
        },
        None => true,
    }
}

} // verus!
