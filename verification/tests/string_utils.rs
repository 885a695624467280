use xcode_project_extractor::utils::string_utils::{string_slice_from_pattern, string_slice_from_start};

#[test]
fn test_string_slice_from_pattern() {
    {
        let string = "hello_world";
        let result = string_slice_from_pattern("h", "_", string);
        assert_eq!(result, "ello");
        assert_ne!(result, "");
    }
    {
        let string = "hello_world";
        let result = string_slice_from_pattern("_", "o", string);
        assert_eq!(result, "w");
        assert_ne!(result, "");
    }

    {
        let string = "hello_world";
        let result = string_slice_from_pattern("_", "!", string);
        assert_eq!(result, "");
    }
}

#[test]
fn test_string_slice_from_start() {
    {
        let string = "hello_world";
        let result = string_slice_from_start("_", string);
        assert_eq!(result, "hello");
        assert_ne!(result, "hello_");
        assert_ne!(result, "hello_world");
        assert_ne!(result, "");
    }
    {
        let string = "hello_world";
        let result = string_slice_from_start("!", string);
        assert_eq!(result, "hello_world");
    }
}

#[test]
fn slices_of_text_with_wide_characters_are_cut_at_characters() {
    assert_eq!(string_slice_from_pattern("«", "»", "a «né» b"), "né");
    assert_eq!(string_slice_from_start("é", "café au lait"), "caf");
}

#[test]
fn a_missing_opening_pattern_gives_nothing() {
    assert_eq!(string_slice_from_pattern("!", "_", "hello_world"), "");
    assert_eq!(string_slice_from_pattern("", "o", "hello"), "hell");
    assert_eq!(string_slice_from_pattern("\"", "\"", "#import \"B.h\""), "B.h");
    assert_eq!(string_slice_from_pattern("\"", "\"", "#import <B.h>"), "");
    assert_eq!(string_slice_from_start("", "hello"), "");
    assert_eq!(string_slice_from_start("hello", "hello"), "");
}
