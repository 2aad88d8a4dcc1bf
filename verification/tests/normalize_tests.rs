use wezterm_file_handler::normalize_path;

#[test]
fn test_normalize_path_removes_current_dir() {
    assert_eq!(normalize_path("/home/user/./project"), "/home/user/project");

    assert_eq!(
        normalize_path("/home/./user/./project/./file"),
        "/home/user/project/file"
    );
}

#[test]
fn test_normalize_path_resolves_parent_dirs() {
    assert_eq!(normalize_path("/home/user/project/../other"), "/home/user/other");

    assert_eq!(normalize_path("/home/user/project/../../file"), "/home/file");

    assert_eq!(normalize_path("/a/b/c/../../d"), "/a/d");
}

#[test]
fn test_normalize_path_complex() {
    assert_eq!(
        normalize_path("/home/user/./project/../lib/./utils.rb"),
        "/home/user/lib/utils.rb"
    );
}

#[test]
fn test_normalize_path_already_normalized() {
    assert_eq!(
        normalize_path("/home/user/project/file.rb"),
        "/home/user/project/file.rb"
    );
}
