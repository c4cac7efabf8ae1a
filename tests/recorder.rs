use sample_logger::{DisabledSampleLogger, ImbalanceError, SampleLogger};

fn text(v: f32) -> String {
    format!("{:?}", v)
}

fn column(logger: &SampleLogger<f32>, name: &str) -> Vec<f32> {
    let t = logger.channels();
    for c in 0..t.num_channels() {
        if t.name(c) == name {
            return t.values(c).clone();
        }
    }
    panic!("no channel {}", name)
}

#[test]
fn new_logger_is_empty_and_active() {
    let logger: SampleLogger<f32> = SampleLogger::new(String::from("out.csv"));
    assert_eq!(logger.channels().num_channels(), 0);
    assert_eq!(logger.sample_count(), 0);
    assert!(logger.is_logging_active());
    assert_eq!(logger.output_path(), "out.csv");
}

#[test]
fn full_rounds_keep_channels_equal() {
    let mut logger = SampleLogger::new(String::from("out.csv"));
    for i in 0..5 {
        assert_eq!(logger.write("sample", i as f32), Ok(()));
        assert_eq!(logger.write("gain", 0.5), Ok(()));
        assert_eq!(logger.write("env", 1.5), Ok(()));
        let t = logger.channels();
        for c in 0..t.num_channels() {
            assert_eq!(t.values(c).len(), i + 1);
        }
    }
    assert_eq!(logger.sample_count(), 5);
    assert_eq!(column(&logger, "sample"), vec![0.0, 1.0, 2.0, 3.0, 4.0]);
}

#[test]
fn column_order_is_first_insertion_order() {
    let mut logger = SampleLogger::new(String::from("out.csv"));
    logger.write("sample", 1.0f32).unwrap();
    logger.write("zeta", 2.0).unwrap();
    logger.write("alpha", 3.0).unwrap();
    let t = logger.channels();
    assert_eq!(t.name(0), "sample");
    assert_eq!(t.name(1), "zeta");
    assert_eq!(t.name(2), "alpha");
}

#[test]
fn skew_of_more_than_one_is_an_imbalance() {
    let mut logger = SampleLogger::new(String::from("out.csv"));
    assert_eq!(logger.write("sample", 0.1f32), Ok(()));
    assert_eq!(logger.write("other", 1.0), Ok(()));
    assert_eq!(logger.write("other", 2.0), Ok(()));
    assert_eq!(logger.write("other", 3.0), Err(ImbalanceError::UnequalLengths));
    // the value that broke the alignment was appended all the same
    assert_eq!(column(&logger, "other"), vec![1.0, 2.0, 3.0]);
}

#[test]
fn second_round_without_sample_channel_is_an_imbalance() {
    let mut logger = SampleLogger::new(String::from("out.csv"));
    assert_eq!(logger.write("x", 0.1f32), Ok(()));
    assert_eq!(logger.write("x", 0.2), Err(ImbalanceError::MissingSampleChannel));
}

#[test]
fn new_channel_in_second_round_is_an_imbalance() {
    let mut logger = SampleLogger::new(String::from("out.csv"));
    logger.write("sample", 0.1f32).unwrap();
    logger.write("sample", 0.2).unwrap();
    logger.write("sample", 0.3).unwrap();
    assert_eq!(logger.write("late", 1.0), Err(ImbalanceError::UnequalLengths));
}

#[test]
fn stop_threshold_caps_the_sample_channel() {
    let mut logger = SampleLogger::new(String::from("out.csv"));
    logger.set_quit_after_n_samples(3);
    for i in 0..10 {
        assert_eq!(logger.is_logging_active(), i < 3);
        assert_eq!(logger.write("sample", i as f32), Ok(()));
        assert_eq!(logger.write("other", 0.0), Ok(()));
    }
    assert_eq!(logger.sample_count(), 3);
    assert_eq!(column(&logger, "sample"), vec![0.0, 1.0, 2.0]);
    // the third sample closes logging before its "other" value arrives
    assert_eq!(column(&logger, "other"), vec![0.0, 0.0]);
    assert!(!logger.is_logging_active());
}

#[test]
fn stop_threshold_of_zero_records_nothing() {
    let mut logger = SampleLogger::new(String::from("out.csv"));
    logger.set_quit_after_n_samples(0);
    assert!(!logger.is_logging_active());
    assert_eq!(logger.write("sample", 1.0f32), Ok(()));
    assert_eq!(logger.channels().num_channels(), 0);
}

#[test]
fn threshold_set_late_takes_effect_on_next_write() {
    let mut logger = SampleLogger::new(String::from("out.csv"));
    logger.write("sample", 1.0f32).unwrap();
    logger.write("sample", 2.0).unwrap();
    logger.set_quit_after_n_samples(2);
    logger.write("sample", 3.0).unwrap();
    assert_eq!(column(&logger, "sample"), vec![1.0, 2.0]);
}

#[test]
fn flush_writes_blank_cell_for_open_sample() {
    let mut logger = SampleLogger::new(String::from("out.csv"));
    logger.write("sample", 0.1f32).unwrap();
    logger.write("other", 1.0).unwrap();
    logger.write("sample", 0.2).unwrap();
    let bytes = logger.write_debug_values(text).unwrap();
    assert_eq!(String::from_utf8(bytes).unwrap(), "sample,other\n0.1,1.0\n0.2,\n");
}

#[test]
fn flush_does_not_reset_and_can_repeat() {
    let mut logger = SampleLogger::new(String::from("out.csv"));
    logger.write("sample", 1.0f32).unwrap();
    let first = logger.write_debug_values(text).unwrap();
    assert_eq!(String::from_utf8(first).unwrap(), "sample\n1.0\n");
    logger.write("sample", 2.0).unwrap();
    let second = logger.write_debug_values(text).unwrap();
    assert_eq!(String::from_utf8(second).unwrap(), "sample\n1.0\n2.0\n");
}

#[test]
fn flush_refuses_an_unaligned_table() {
    let mut logger = SampleLogger::new(String::from("out.csv"));
    logger.write("x", 1.0f32).unwrap();
    let _ = logger.write("x", 2.0);
    assert_eq!(logger.write_debug_values(text), Err(ImbalanceError::MissingSampleChannel));
}

#[test]
fn flush_uses_the_given_formatting() {
    let mut logger = SampleLogger::new(String::from("out.csv"));
    logger.write("sample", 7u32).unwrap();
    logger.write("gain", 9u32).unwrap();
    let bytes = logger.write_debug_values(|v: u32| format!("<{}>", v)).unwrap();
    assert_eq!(String::from_utf8(bytes).unwrap(), "sample,gain\n<7>,<9>\n");
}

#[test]
fn disabled_logger_keeps_nothing_and_flushes_trivially() {
    let mut logger = DisabledSampleLogger::new(String::from("out.csv"));
    logger.set_quit_after_n_samples(1);
    for i in 0..4 {
        assert_eq!(logger.write("x", i as f32), Ok(()));
    }
    assert!(!logger.is_logging_active());
    assert_eq!(logger.output_path(), "out.csv");
    assert_eq!(logger.write_debug_values().unwrap(), Vec::<u8>::new());
}

#[test]
fn empty_channel_name_is_recorded_like_any_other() {
    let mut logger = SampleLogger::new(String::from("out.csv"));
    assert_eq!(logger.write("sample", 1.0f32), Ok(()));
    assert_eq!(logger.write("", 2.0), Ok(()));
    assert_eq!(logger.channels().num_channels(), 2);
    assert_eq!(logger.channels().name(1), "");
    assert_eq!(column(&logger, ""), vec![2.0]);
}

#[test]
fn empty_recorder_flushes_no_bytes() {
    let logger: SampleLogger<f32> = SampleLogger::new(String::from("out.csv"));
    assert_eq!(logger.write_debug_values(text), Ok(Vec::new()));
}

#[test]
fn repeated_flush_gives_same_bytes() {
    let mut logger = SampleLogger::new(String::from("out.csv"));
    logger.write("sample", 0.5f32).unwrap();
    logger.write("gain", 2.0).unwrap();
    logger.write("sample", 0.25).unwrap();
    let first = logger.write_debug_values(text).unwrap();
    let second = logger.write_debug_values(text).unwrap();
    assert_eq!(first, second);
    assert_eq!(String::from_utf8(first).unwrap(), "sample,gain\n0.5,2.0\n0.25,\n");
}
