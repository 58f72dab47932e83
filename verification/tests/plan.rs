use bitonic_sort::length::log_len_of;
use bitonic_sort::params::StageParameters;
use bitonic_sort::sequencer::StageSequencer;

#[test]
fn bitonic_sort_num_group_array() {
    const ARRAY_LENGTH: usize = 16;
    let mut result_init = vec![];
    let mut result_curr = vec![];

    let log_len = (ARRAY_LENGTH as f32).log2() as u32;
    assert_eq!(log_len_of(ARRAY_LENGTH), Ok(log_len));
    let plan = StageSequencer::compute(log_len);
    let mut last_init = None;
    for entry in plan.entries().iter() {
        if last_init != Some(entry.log_group_init) {
            result_init.push(entry.log_group_init);
            last_init = Some(entry.log_group_init);
        }
        result_curr.push(entry.log_group_curr);
    }

    assert_eq!(result_init, vec![3, 2, 1, 0]);
    assert_eq!(result_curr, vec![3, 2, 3, 1, 2, 3, 0, 1, 2, 3])
}

#[test]
fn plan_follows_the_nested_loops() {
    for log_len in 0u32..12 {
        let mut expected = vec![];
        for num_stage in 1..=log_len {
            let log_num_group_init = log_len - num_stage;
            for num_step in 0..num_stage {
                expected.push(StageParameters {
                    log_len,
                    log_group_init: log_num_group_init,
                    log_group_curr: log_num_group_init + num_step,
                });
            }
        }
        let plan = StageSequencer::compute(log_len);
        assert_eq!(plan.entries(), &expected);
        assert_eq!(plan.log_len(), log_len);
    }
}

#[test]
fn plan_length_is_triangular() {
    for log_len in 0u32..40 {
        let plan = StageSequencer::compute(log_len);
        assert_eq!(plan.len() as u32, log_len * (log_len + 1) / 2);
        assert_eq!(plan.is_empty(), log_len == 0);
    }
    assert_eq!(StageSequencer::compute(25).len(), 325);
}

#[test]
fn empty_plan_for_single_element() {
    let plan = StageSequencer::compute(0);
    assert!(plan.is_empty());
    assert_eq!(plan.len(), 0);
    assert_eq!(plan.get(0), None);
}

#[test]
fn plan_entries_stay_in_range() {
    let plan = StageSequencer::compute(7);
    for index in 0..plan.len() {
        let entry = plan.get(index).unwrap();
        assert_eq!(entry.log_len, 7);
        assert!(entry.is_in_range());
        assert!(entry.log_group_init <= entry.log_group_curr);
        assert!(entry.log_group_curr <= 6);
    }
    assert_eq!(plan.get(plan.len()), None);
    assert_eq!(
        plan.get(0),
        Some(StageParameters { log_len: 7, log_group_init: 6, log_group_curr: 6 })
    );
    assert_eq!(
        plan.get(27),
        Some(StageParameters { log_len: 7, log_group_init: 0, log_group_curr: 6 })
    );
}

#[test]
fn for_step_builds_one_entry() {
    assert_eq!(
        StageParameters::for_step(4, 3, 2),
        StageParameters { log_len: 4, log_group_init: 1, log_group_curr: 3 }
    );
    assert!(!StageParameters { log_len: 4, log_group_init: 2, log_group_curr: 1 }.is_in_range());
    assert!(!StageParameters { log_len: 4, log_group_init: 2, log_group_curr: 4 }.is_in_range());
}
