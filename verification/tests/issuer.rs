use bitonic_sort::error::SortError;
use bitonic_sort::grid::dispatch_grid;
use bitonic_sort::issuer::{DispatchIssuer, IssuerAction, IssuerEvent, IssuerPhase};
use bitonic_sort::params::StageParameters;
use bitonic_sort::sequencer::StageSequencer;

#[test]
fn sort_of_length_10_is_refused() {
    assert_eq!(DispatchIssuer::new(10).err(), Some(SortError::NotPowerOfTwo { len: 10 }));
}

#[test]
fn issuer_starts_awaiting_the_backend() {
    let issuer = DispatchIssuer::new(16).unwrap();
    assert_eq!(issuer.phase(), IssuerPhase::AwaitingBackend);
    assert_eq!(issuer.len(), 16);
    assert_eq!(issuer.log_len(), 4);
    assert_eq!(issuer.plan().len(), 10);
    assert!(!issuer.is_done());
}

#[test]
fn issuer_submits_the_whole_plan_in_order() {
    for log_len in 0u32..11 {
        let len = 1usize << log_len;
        let plan = StageSequencer::compute(log_len);
        let mut issuer = DispatchIssuer::new(len).unwrap();
        let mut event = IssuerEvent::BackendReady;
        let mut submitted = vec![];
        loop {
            match issuer.step(event) {
                IssuerAction::Submit { index, params, grid } => {
                    assert_eq!(index, submitted.len());
                    assert_eq!(grid, dispatch_grid(log_len));
                    assert_eq!(issuer.phase(), IssuerPhase::InFlight { index });
                    submitted.push(params);
                    event = IssuerEvent::DispatchCompleted;
                }
                IssuerAction::Finished => break,
                other => panic!("unexpected action {:?}", other),
            }
        }
        assert_eq!(&submitted, plan.entries());
        assert_eq!(issuer.phase(), IssuerPhase::Finished);
        assert!(issuer.is_done());
    }
}

#[test]
fn issuer_first_submission_for_16_elements() {
    let mut issuer = DispatchIssuer::new(16).unwrap();
    assert_eq!(
        issuer.step(IssuerEvent::BackendReady),
        IssuerAction::Submit {
            index: 0,
            params: StageParameters { log_len: 4, log_group_init: 3, log_group_curr: 3 },
            grid: (1, 1, 1),
        }
    );
    assert_eq!(
        issuer.step(IssuerEvent::DispatchCompleted),
        IssuerAction::Submit {
            index: 1,
            params: StageParameters { log_len: 4, log_group_init: 2, log_group_curr: 2 },
            grid: (1, 1, 1),
        }
    );
}

#[test]
fn issuer_uses_the_grid_of_the_array() {
    let mut issuer = DispatchIssuer::new(1 << 9).unwrap();
    match issuer.step(IssuerEvent::BackendReady) {
        IssuerAction::Submit { grid, .. } => assert_eq!(grid, (2, 1, 1)),
        other => panic!("unexpected action {:?}", other),
    }
    let mut issuer = DispatchIssuer::new(1 << 16).unwrap();
    match issuer.step(IssuerEvent::BackendReady) {
        IssuerAction::Submit { grid, .. } => assert_eq!(grid, (32, 16, 1)),
        other => panic!("unexpected action {:?}", other),
    }
}

#[test]
fn backend_failure_aborts_before_any_dispatch() {
    let mut issuer = DispatchIssuer::new(8).unwrap();
    assert_eq!(
        issuer.step(IssuerEvent::BackendFailed),
        IssuerAction::Abort { error: SortError::BackendUnavailable }
    );
    assert_eq!(issuer.phase(), IssuerPhase::Failed { error: SortError::BackendUnavailable });
    assert!(issuer.is_done());
    assert_eq!(issuer.step(IssuerEvent::BackendReady), IssuerAction::Ignored);
    assert_eq!(issuer.step(IssuerEvent::DispatchCompleted), IssuerAction::Ignored);
    assert_eq!(issuer.phase(), IssuerPhase::Failed { error: SortError::BackendUnavailable });
}

#[test]
fn dispatch_failure_is_fatal() {
    let mut issuer = DispatchIssuer::new(8).unwrap();
    issuer.step(IssuerEvent::BackendReady);
    issuer.step(IssuerEvent::DispatchCompleted);
    issuer.step(IssuerEvent::DispatchCompleted);
    assert_eq!(issuer.phase(), IssuerPhase::InFlight { index: 2 });
    assert_eq!(
        issuer.step(IssuerEvent::DispatchFailed),
        IssuerAction::Abort { error: SortError::DispatchFailed { index: 2 } }
    );
    assert_eq!(
        issuer.phase(),
        IssuerPhase::Failed { error: SortError::DispatchFailed { index: 2 } }
    );
    assert_eq!(issuer.step(IssuerEvent::DispatchCompleted), IssuerAction::Ignored);
    assert_eq!(
        issuer.phase(),
        IssuerPhase::Failed { error: SortError::DispatchFailed { index: 2 } }
    );
}

#[test]
fn events_out_of_place_change_nothing() {
    let mut issuer = DispatchIssuer::new(4).unwrap();
    assert_eq!(issuer.step(IssuerEvent::DispatchCompleted), IssuerAction::Ignored);
    assert_eq!(issuer.step(IssuerEvent::DispatchFailed), IssuerAction::Ignored);
    assert_eq!(issuer.phase(), IssuerPhase::AwaitingBackend);
    issuer.step(IssuerEvent::BackendReady);
    assert_eq!(issuer.step(IssuerEvent::BackendReady), IssuerAction::Ignored);
    assert_eq!(issuer.step(IssuerEvent::BackendFailed), IssuerAction::Ignored);
    assert_eq!(issuer.phase(), IssuerPhase::InFlight { index: 0 });
    issuer.step(IssuerEvent::DispatchCompleted);
    issuer.step(IssuerEvent::DispatchCompleted);
    assert_eq!(issuer.step(IssuerEvent::DispatchCompleted), IssuerAction::Finished);
    assert_eq!(issuer.step(IssuerEvent::DispatchCompleted), IssuerAction::Ignored);
    assert_eq!(issuer.step(IssuerEvent::DispatchFailed), IssuerAction::Ignored);
    assert_eq!(issuer.phase(), IssuerPhase::Finished);
}

#[test]
fn single_element_finishes_without_a_dispatch() {
    for len in [0usize, 1] {
        let mut issuer = DispatchIssuer::new(len).unwrap();
        assert_eq!(issuer.log_len(), 0);
        assert_eq!(issuer.step(IssuerEvent::BackendReady), IssuerAction::Finished);
        assert_eq!(issuer.phase(), IssuerPhase::Finished);
    }
}

#[test]
fn plan_and_array_must_match() {
    let issuer = DispatchIssuer::with_plan(StageSequencer::compute(4), 16).unwrap();
    assert_eq!(issuer.log_len(), 4);
    assert_eq!(issuer.len(), 16);
    assert_eq!(issuer.phase(), IssuerPhase::AwaitingBackend);
    assert_eq!(
        DispatchIssuer::with_plan(StageSequencer::compute(4), 32).err(),
        Some(SortError::LengthMismatch { log_len: 4, len: 32 })
    );
    assert_eq!(
        DispatchIssuer::with_plan(StageSequencer::compute(4), 0).err(),
        Some(SortError::LengthMismatch { log_len: 4, len: 0 })
    );
    assert_eq!(
        DispatchIssuer::with_plan(StageSequencer::compute(4), 10).err(),
        Some(SortError::NotPowerOfTwo { len: 10 })
    );
    assert!(DispatchIssuer::with_plan(StageSequencer::compute(0), 0).is_ok());
    assert!(DispatchIssuer::with_plan(StageSequencer::compute(0), 1).is_ok());
    assert_eq!(
        DispatchIssuer::with_plan(StageSequencer::compute(0), 2).err(),
        Some(SortError::LengthMismatch { log_len: 0, len: 2 })
    );
}

#[test]
fn submissions_are_a_prefix_of_the_plan_whatever_is_reported() {
    let events = [
        IssuerEvent::BackendReady,
        IssuerEvent::BackendFailed,
        IssuerEvent::DispatchCompleted,
        IssuerEvent::DispatchFailed,
    ];
    let plan = StageSequencer::compute(3);
    let mut seed: u32 = 12345;
    for _ in 0..500 {
        let mut issuer = DispatchIssuer::new(8).unwrap();
        let mut submitted = vec![];
        for _ in 0..12 {
            seed = seed.wrapping_mul(1664525).wrapping_add(1013904223);
            let event = events[(seed >> 24) as usize % 4];
            if let IssuerAction::Submit { index, params, .. } = issuer.step(event) {
                assert_eq!(index, submitted.len());
                submitted.push(params);
            }
        }
        assert!(submitted.len() <= plan.len());
        assert_eq!(&submitted[..], &plan.entries()[..submitted.len()]);
    }
}
