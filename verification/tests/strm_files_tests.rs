use tuliprox_store::strm_files::{strm_files_to_remove, strm_index_text};

fn strings(v: &[&str]) -> Vec<String> {
    v.iter().map(|s| s.to_string()).collect()
}

#[test]
fn index_text_puts_each_entry_on_its_line() {
    assert_eq!(strm_index_text(&strings(&["a/b.strm", "c.strm"])), "a/b.strm\nc.strm\n");
    assert_eq!(strm_index_text(&Vec::new()), "");
    assert_eq!(strm_index_text(&strings(&[""])), "\n");
}

#[test]
fn files_not_written_by_the_run_are_removed() {
    let existing = strings(&["a.strm", "b.strm", "c.strm"]);
    let found = strings(&["a.strm", "x.strm", "b.strm"]);
    let processed = strings(&["b.strm"]);
    assert_eq!(strm_files_to_remove(false, &existing, &found, &processed), strings(&["a.strm", "c.strm"]));
    assert_eq!(strm_files_to_remove(true, &existing, &found, &processed), strings(&["a.strm", "x.strm"]));
    assert!(strm_files_to_remove(false, &existing, &found, &existing).is_empty());
}
