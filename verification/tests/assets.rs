use lindera_dictionary::assets::{
    download_step, needs_download, DownloadAction, DownloadError, DownloadEvent, DownloadStage,
    MAX_ROUND,
};

/// The MD5 digest of `b"abc"`.
const GOOD: &str = "900150983cd24fb0d6963f7d28e17f72";

#[test]
fn start_without_urls_gives_up() {
    let (stage, action) = download_step(DownloadStage::Idle, &DownloadEvent::Start, 0, MAX_ROUND, GOOD).unwrap();
    assert_eq!(stage, DownloadStage::Failed);
    assert_eq!(action, DownloadAction::GiveUp(DownloadError::NoUrls));
}

#[test]
fn start_fetches_first_url_of_first_round() {
    let (stage, action) = download_step(DownloadStage::Idle, &DownloadEvent::Start, 2, MAX_ROUND, GOOD).unwrap();
    assert_eq!(stage, DownloadStage::Trying { round: 0, position: 0 });
    assert_eq!(action, DownloadAction::Fetch { round: 0, position: 0 });
}

#[test]
fn matching_digest_is_accepted() {
    let stage = DownloadStage::Trying { round: 1, position: 1 };
    let (next, action) =
        download_step(stage, &DownloadEvent::Fetched(b"abc".to_vec()), 2, MAX_ROUND, GOOD).unwrap();
    assert_eq!(next, DownloadStage::Done);
    assert_eq!(action, DownloadAction::Accept);
}

#[test]
fn mismatching_digest_moves_to_next_url() {
    let stage = DownloadStage::Trying { round: 0, position: 0 };
    let (next, action) =
        download_step(stage, &DownloadEvent::Fetched(b"abd".to_vec()), 2, MAX_ROUND, GOOD).unwrap();
    assert_eq!(next, DownloadStage::Trying { round: 0, position: 1 });
    assert_eq!(action, DownloadAction::Fetch { round: 0, position: 1 });
}

#[test]
fn last_url_failing_pauses_then_next_round() {
    let stage = DownloadStage::Trying { round: 0, position: 1 };
    let (next, action) = download_step(stage, &DownloadEvent::FetchFailed, 2, MAX_ROUND, GOOD).unwrap();
    assert_eq!(next, DownloadStage::Pausing { round: 0 });
    assert_eq!(action, DownloadAction::Pause);
    let (next, action) = download_step(next, &DownloadEvent::Paused, 2, MAX_ROUND, GOOD).unwrap();
    assert_eq!(next, DownloadStage::Trying { round: 1, position: 0 });
    assert_eq!(action, DownloadAction::Fetch { round: 1, position: 0 });
}

#[test]
fn every_round_failing_gives_up_after_max_rounds() {
    let mut stage = DownloadStage::Idle;
    let mut event = DownloadEvent::Start;
    let mut fetches = 0;
    loop {
        let (next, action) = download_step(stage, &event, 2, MAX_ROUND, GOOD).unwrap();
        stage = next;
        match action {
            DownloadAction::Fetch { .. } => {
                fetches += 1;
                event = DownloadEvent::FetchFailed;
            }
            DownloadAction::Pause => event = DownloadEvent::Paused,
            DownloadAction::Accept => panic!("nothing matched"),
            DownloadAction::GiveUp(e) => {
                assert_eq!(e, DownloadError::AllAttemptsFailed);
                break;
            }
        }
    }
    assert_eq!(fetches, 2 * MAX_ROUND);
    assert_eq!(stage, DownloadStage::Failed);
}

#[test]
fn event_out_of_place_changes_nothing() {
    assert!(download_step(DownloadStage::Done, &DownloadEvent::Start, 2, MAX_ROUND, GOOD).is_none());
    assert!(download_step(DownloadStage::Idle, &DownloadEvent::Paused, 2, MAX_ROUND, GOOD).is_none());
}

#[test]
fn cached_archive_is_kept_only_with_expected_digest() {
    assert!(!needs_download(Some(&b"abc"[..]), GOOD));
    assert!(needs_download(Some(&b"abd"[..]), GOOD));
    assert!(needs_download(Some(&b""[..]), GOOD));
    assert!(needs_download(None, GOOD));
}
