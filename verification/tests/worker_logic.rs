use encodec_explorer::codes::Codes;
use encodec_explorer::stitch::stitch;
use encodec_explorer::worker::{
    ToApp, ToWorker, WorkerAction, WorkerCore, apply_messages, initial_samples,
};

fn grid_with_code(code: u32) -> Codes {
    let mut c = Codes::new();
    *c.get_mut(0, 0).expect("cell in range") = code;
    c
}

#[test]
fn initial_samples_are_one_silent_fragment() {
    let s = initial_samples();
    assert_eq!(s.len(), 320);
    assert!(s.iter().all(|&v| v == 0));
}

#[test]
fn step_decodes_a_first_submission() {
    let mut core = WorkerCore::new();
    let batch = vec![ToWorker::SetCodes { codes: grid_with_code(5) }];
    match core.step(&batch) {
        WorkerAction::Decode(d) => assert!(d == grid_with_code(5)),
        _ => panic!("expected a decode"),
    }
}

#[test]
fn step_coalesces_to_the_newest_submission() {
    // Rapid submissions c1, c2, c3 drained in one batch: only c3 is decoded,
    // and what is decoded is always a grid that was submitted.
    let mut core = WorkerCore::new();
    let batch = vec![
        ToWorker::SetCodes { codes: grid_with_code(1) },
        ToWorker::SetCodes { codes: grid_with_code(2) },
        ToWorker::SetCodes { codes: grid_with_code(3) },
    ];
    match core.step(&batch) {
        WorkerAction::Decode(d) => assert!(d == grid_with_code(3)),
        _ => panic!("expected a decode"),
    }
}

#[test]
fn step_skips_a_grid_equal_to_the_last_decoded() {
    let mut core = WorkerCore::new();
    let batch = vec![ToWorker::SetCodes { codes: grid_with_code(5) }];
    assert!(matches!(core.step(&batch), WorkerAction::Decode(_)));
    let again = vec![ToWorker::SetCodes { codes: grid_with_code(5) }];
    assert!(matches!(core.step(&again), WorkerAction::Idle));
    let changed = vec![ToWorker::SetCodes { codes: grid_with_code(500) }];
    assert!(matches!(core.step(&changed), WorkerAction::Decode(_)));
}

#[test]
fn step_stops_whenever_a_stop_is_pending() {
    let mut core = WorkerCore::new();
    let batch = vec![
        ToWorker::SetCodes { codes: grid_with_code(1) },
        ToWorker::Stop,
        ToWorker::SetCodes { codes: grid_with_code(2) },
    ];
    assert!(matches!(core.step(&batch), WorkerAction::Stop));
    let alone = vec![ToWorker::Stop];
    assert!(matches!(core.step(&alone), WorkerAction::Stop));
}

#[test]
fn step_with_nothing_pending_is_idle() {
    let mut core = WorkerCore::new();
    let batch: Vec<ToWorker> = Vec::new();
    assert!(matches!(core.step(&batch), WorkerAction::Idle));
}

#[test]
fn apply_messages_without_replies_reports_no_update() {
    let mut samples: Vec<i64> = vec![1, 2, 3];
    let updated = apply_messages(&mut samples, Vec::new());
    assert!(!updated);
    assert_eq!(samples, vec![1, 2, 3]);
}

#[test]
fn apply_messages_adopts_the_newest_buffer() {
    let mut samples: Vec<i64> = vec![0; 4];
    let msgs = vec![
        ToApp::Samples(vec![1; 4]),
        ToApp::Error(String::from("decode failed")),
        ToApp::Samples(vec![2; 4]),
    ];
    assert!(apply_messages(&mut samples, msgs));
    assert_eq!(samples, vec![2; 4]);
}

#[test]
fn apply_messages_keeps_the_cache_on_errors_alone() {
    let mut samples: Vec<i64> = vec![9; 2];
    let msgs = vec![ToApp::Error(String::from("transient"))];
    assert!(!apply_messages(&mut samples, msgs));
    assert_eq!(samples, vec![9; 2]);
}

#[test]
fn edit_decode_poll_scenario() {
    // A 1-layer, 1-fragment grid with code 5 is submitted; the decode of its
    // four-fold repetition stitches down to exactly 320 samples. A later
    // submission with code 500 eventually replaces the cached buffer, and a
    // poll before that result arrives reports no update.
    let mut core = WorkerCore::new();
    let mut cache = initial_samples();

    let batch = vec![ToWorker::SetCodes { codes: grid_with_code(5) }];
    let first = match core.step(&batch) {
        WorkerAction::Decode(d) => d,
        _ => panic!("expected a decode"),
    };
    let repeated = first.repeated(4);
    assert_eq!(repeated.width(), 4);
    // Stand-in for the decoder: any 4·320-sample buffer at the native rate.
    let decoded: Vec<i64> = (0..4 * 320).map(|i| (i % 41) * 16 - 320).collect();
    let stitched = stitch(&decoded, 1);
    assert_eq!(stitched.len(), 320);
    assert!(apply_messages(&mut cache, vec![ToApp::Samples(stitched.clone())]));
    assert_eq!(cache, stitched);

    let batch2 = vec![ToWorker::SetCodes { codes: grid_with_code(500) }];
    match core.step(&batch2) {
        WorkerAction::Decode(d) => assert!(d == grid_with_code(500)),
        _ => panic!("expected a decode"),
    }
    // Poll before the new result arrives: no update, cache unchanged.
    assert!(!apply_messages(&mut cache, Vec::new()));
    assert_eq!(cache, stitched);
    // The new result lands: last write wins.
    let newer: Vec<i64> = vec![123; 320];
    assert!(apply_messages(&mut cache, vec![ToApp::Samples(newer.clone())]));
    assert_eq!(cache, newer);
}
