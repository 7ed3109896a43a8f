use convrs::partition::{
    check_partition, generate_partition, samples_up_to, segment_avail, segment_offset,
    spectrum_start, PlanError,
};

#[test]
fn check_partition_accepts_the_usual_plan() {
    let plan = [(128usize, 22usize), (1024, 21), (8192, 23)];
    assert_eq!(check_partition(&plan, 2), Ok(()));
    assert_eq!(segment_avail(&plan, 1), 8);
    assert_eq!(segment_avail(&plan, 2), 64);
    assert_eq!(segment_offset(&plan, 2, 1), 22);
    assert_eq!(segment_offset(&plan, 2, 2), 22 + 168);
}

#[test]
fn check_partition_names_each_fault() {
    assert_eq!(check_partition(&[], 2), Err(PlanError::Empty));
    assert_eq!(check_partition(&[(128, 4)], 0), Err(PlanError::NoChannels));
    assert_eq!(check_partition(&[(0, 4)], 1), Err(PlanError::ZeroBlockSize));
    assert_eq!(check_partition(&[(128, 0)], 1), Err(PlanError::ZeroTapCount));
    assert_eq!(check_partition(&[(128, 4), (128, 4)], 1), Err(PlanError::NotAscending));
    assert_eq!(check_partition(&[(128, 4), (64, 4)], 1), Err(PlanError::NotAscending));
    assert_eq!(check_partition(&[(128, 4), (192, 4)], 1), Err(PlanError::NotDivisible));
    assert_eq!(check_partition(&[(usize::MAX / 2 + 1, 1)], 1), Err(PlanError::TooLarge));
    assert_eq!(check_partition(&[(128, usize::MAX / 64)], 1), Err(PlanError::TooLarge));
}

#[test]
fn generate_partition_gives_the_empty_plan() {
    assert!(generate_partition(4096, 128).is_empty());
    assert_eq!(check_partition(&generate_partition(4096, 128), 1), Err(PlanError::Empty));
}

#[test]
fn plan_sizes_add_up() {
    let plan = [(128usize, 22usize), (1024, 21), (8192, 23)];
    assert_eq!(samples_up_to(&plan, 2, 0), 0);
    assert_eq!(samples_up_to(&plan, 2, 1), 2816);
    assert_eq!(samples_up_to(&plan, 2, 2), 2816 + 21504);
    assert_eq!(samples_up_to(&plan, 2, 3), 212736);
    assert_eq!(spectrum_start(&plan, 2, 0), 0);
    assert_eq!(spectrum_start(&plan, 2, 1), 129 * 22 * 2);
    assert_eq!(spectrum_start(&plan, 2, 2), 129 * 22 * 2 + 1025 * 21 * 2);
    assert_eq!(spectrum_start(&plan, 2, 3), 129 * 22 * 2 + 1025 * 21 * 2 + 8193 * 23 * 2);
}

#[test]
fn output_of_a_segment_is_due_when_its_samples_are() {
    // a block handed over in cycle k is due in cycle k - avail + offset, and its
    // first sample lies where the partition's part of the response starts
    let plan = [(128usize, 22usize), (1024, 21), (8192, 23)];
    for i in 1..3 {
        let avail = segment_avail(&plan, i);
        let offset = segment_offset(&plan, 1, i);
        assert!(offset >= avail);
        for k in (avail..10 * avail).step_by(avail) {
            let due = k - avail + offset;
            assert_eq!((due - offset) % avail, 0);
            assert_eq!(due * 128, k * 128 - plan[i].0 + samples_up_to(&plan, 1, i));
        }
    }
}
