use junit_groups::loader::{is_report_file, list_xml_files_in_dir, list_xml_files_in_dirs, DirEntry, DirListing};

fn listing(dir: &str, names: &[&str]) -> DirListing {
    DirListing {
        dir: String::from(dir),
        entries: names
            .iter()
            .map(|n| DirEntry { file_name: n.to_string(), path: format!("{}/{}", dir, n) })
            .collect(),
    }
}

fn paths(files: Vec<junit_groups::model::FilePath>) -> Vec<String> {
    files.into_iter().map(|f| f.path).collect()
}

#[test]
fn test_list_xml_files_in_dir() {
    let dirs = list_xml_files_in_dir(&listing("d", &["TEST-a.xml", "TEST-b.xml"]));
    assert_eq!(dirs.len(), 2)
}

#[test]
fn test_list_xml_files_in_dir_ignore_no_test() {
    let dirs = list_xml_files_in_dir(&listing("d", &["a.xml", "TEST-b.xml"]));
    assert_eq!(dirs.len(), 1)
}

#[test]
fn test_list_xml_files_in_dir_ignore_non_xml() {
    let dirs = list_xml_files_in_dir(&listing("d", &["TEST-a.xmx", "TEST-b.xml"]));
    assert_eq!(dirs.len(), 1)
}

#[test]
fn report_file_names() {
    assert!(is_report_file("TEST-a.xml"));
    assert!(is_report_file("TEST.XML"));
    assert!(is_report_file("TESTS.data.XmL"));
    assert!(!is_report_file("TEST-a.xml.bak"));
    assert!(!is_report_file("TEST-a"));
    assert!(!is_report_file("TEST-a.xmlx"));
    assert!(!is_report_file("test-a.xml"));
    assert!(!is_report_file("a.xml"));
    assert!(!is_report_file(""));
}

#[test]
fn listing_keeps_entry_order_and_full_paths() {
    let files = list_xml_files_in_dir(&listing("r", &["TEST-z.xml", "x.txt", "TEST-a.xml"]));
    assert_eq!(paths(files), vec!["r/TEST-z.xml".to_string(), "r/TEST-a.xml".to_string()]);
}

#[test]
fn repeated_directories_are_listed_once() {
    let files = list_xml_files_in_dirs(vec![
        listing("one", &["TEST-a.xml"]),
        listing("two", &["TEST-b.xml", "notes.md"]),
        listing("one", &["TEST-a.xml"]),
    ]);
    assert_eq!(paths(files), vec!["one/TEST-a.xml".to_string(), "two/TEST-b.xml".to_string()]);
}

#[test]
fn no_directories_give_no_files() {
    assert!(list_xml_files_in_dirs(vec![]).is_empty());
}
