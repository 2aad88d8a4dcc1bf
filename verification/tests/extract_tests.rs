use wezterm_file_handler::extract_path_and_location;

#[test]
fn test_extract_path_and_location_no_line_numbers() {
    assert_eq!(
        extract_path_and_location("file.rb"),
        ("file.rb".to_string(), None)
    );

    assert_eq!(
        extract_path_and_location("./spec/spec_helper.rb"),
        ("./spec/spec_helper.rb".to_string(), None)
    );

    assert_eq!(
        extract_path_and_location("/absolute/path/file.js"),
        ("/absolute/path/file.js".to_string(), None)
    );
}

#[test]
fn test_extract_path_and_location_with_line_numbers() {
    assert_eq!(
        extract_path_and_location("file.rb:123"),
        ("file.rb".to_string(), Some("123".to_string()))
    );

    assert_eq!(
        extract_path_and_location("file.rb:123:45"),
        ("file.rb".to_string(), Some("123:45".to_string()))
    );

    assert_eq!(
        extract_path_and_location("./lib/config.rb:40"),
        ("./lib/config.rb".to_string(), Some("40".to_string()))
    );

    assert_eq!(
        extract_path_and_location("/absolute/path/file.rb:10:5"),
        ("/absolute/path/file.rb".to_string(), Some("10:5".to_string()))
    );
}

#[test]
fn test_extract_path_and_location_ruby_stack_traces() {
    // Ruby stack traces often have :in after the line number
    assert_eq!(
        extract_path_and_location("./lib/file.rb:40:in"),
        ("./lib/file.rb".to_string(), Some("40:in".to_string()))
    );

    // The :in tail is captured as part of the location - the caller ignores it
    assert_eq!(
        extract_path_and_location("spec/helper.rb:123:in `block'"),
        ("spec/helper.rb".to_string(), Some("123:in `block'".to_string()))
    );
}

#[test]
fn test_extract_path_with_colons_but_no_line_numbers() {
    // Colons not followed by digits should not be treated as line numbers
    assert_eq!(
        extract_path_and_location("file:scheme"),
        ("file:scheme".to_string(), None)
    );
}
