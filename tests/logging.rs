use train_checker::logger::{choose_data_dir, get_data_dir, get_log_file_path, log_file_name, LogFileSlot};

#[test]
fn data_dir_override_wins() {
    assert_eq!(get_data_dir(Some("/tmp/tc".to_string())), "/tmp/tc");
    assert_eq!(choose_data_dir(Some("/a".to_string()), Some("/b".to_string())), "/a");
    assert_eq!(choose_data_dir(None, Some("/b".to_string())), "/b");
    assert_eq!(choose_data_dir(None, None), "./.data");
}

#[test]
fn log_file_name_has_session() {
    assert_eq!(log_file_name("20240101_120000"), "train-checker_20240101_120000.log");
}

#[test]
fn log_path_is_set_once() {
    let mut slot = LogFileSlot::new();
    assert_eq!(get_log_file_path(&slot), None);
    assert_eq!(slot.set("/tmp/a.log".to_string()), Ok(()));
    assert_eq!(slot.set("/tmp/b.log".to_string()), Err("/tmp/b.log".to_string()));
    assert_eq!(get_log_file_path(&slot).map(|s| s.as_str()), Some("/tmp/a.log"));
}
