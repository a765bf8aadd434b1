use must::state::{get_module_name, State};

#[test]
fn files_are_kept_by_module_name() {
    let mut s = State::new();
    assert_eq!(s.get_file("main"), None);
    s.add_file("main".to_string(), "fn main() {}".to_string());
    s.add_file("lib".to_string(), "x".to_string());
    assert_eq!(s.get_file("main"), Some("fn main() {}".to_string()));
    s.add_file("main".to_string(), "y".to_string());
    assert_eq!(s.get_file("main"), Some("y".to_string()));
    assert_eq!(s.get_file("lib"), Some("x".to_string()));
    assert_eq!(s.file_map.len(), 2);
}

#[test]
fn module_names_of_paths() {
    assert_eq!(get_module_name(Some("main.must")), "main");
    assert_eq!(get_module_name(Some("a.b.c")), "a");
    assert_eq!(get_module_name(Some("noext")), "noext");
    assert_eq!(get_module_name(Some(".hidden")), "");
    assert_eq!(get_module_name(None), "unknown");
}
