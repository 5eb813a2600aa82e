use rsync::names::temp_file_name;

#[test]
fn temporary_name_has_the_process_id() {
    assert_eq!(temp_file_name("update.txt", 4711), "update.txt.tmp.4711");
    assert_eq!(temp_file_name("update.txt", 0), "update.txt.tmp.0");
    assert_eq!(temp_file_name("update.txt", 9), "update.txt.tmp.9");
    assert_eq!(temp_file_name("update.txt", 10), "update.txt.tmp.10");
    assert_eq!(temp_file_name("", 1_234_567_890), ".tmp.1234567890");
    assert_eq!(temp_file_name("n\u{e9}", u32::MAX), "n\u{e9}.tmp.4294967295");
}

#[test]
fn temporary_names_do_not_clash() {
    assert_ne!(temp_file_name("a", 1), "a");
    assert_ne!(temp_file_name("a", 1), temp_file_name("a", 11));
    assert_ne!(temp_file_name("a", 1), temp_file_name("b", 1));
    assert_ne!(temp_file_name("a.tmp.1", 2), temp_file_name("a", 12));
}
