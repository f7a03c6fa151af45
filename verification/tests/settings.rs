use lora_link::awgn::{work_plan, NoisePlan};
use lora_link::node::{get_sample_rate, Bandwidth};

#[test]
fn noise_stage_forwards_what_both_sides_allow() {
    assert_eq!(work_plan(10, 4, false), NoisePlan { count: 4, finished: false });
    assert_eq!(work_plan(4, 10, false), NoisePlan { count: 4, finished: false });
    assert_eq!(work_plan(0, 10, false), NoisePlan { count: 0, finished: false });
}

#[test]
fn noise_stage_is_done_once_the_exhausted_source_is_drained() {
    assert_eq!(work_plan(4, 10, true), NoisePlan { count: 4, finished: true });
    assert_eq!(work_plan(4, 4, true), NoisePlan { count: 4, finished: true });
    assert_eq!(work_plan(0, 0, true), NoisePlan { count: 0, finished: true });
    assert_eq!(work_plan(10, 4, true), NoisePlan { count: 4, finished: false });
}

#[test]
fn sample_rate_is_bandwidth_times_oversampling() {
    assert_eq!(get_sample_rate(Bandwidth::BW62, 8), 500_000);
    assert_eq!(get_sample_rate(Bandwidth::BW125, 8), 1_000_000);
    assert_eq!(get_sample_rate(Bandwidth::BW250, 4), 1_000_000);
    assert_eq!(get_sample_rate(Bandwidth::BW500, 1), 500_000);
    assert_eq!(get_sample_rate(Bandwidth::BW500, 0), 0);
    assert_eq!(Bandwidth::BW62.hz(), 62_500);
}
