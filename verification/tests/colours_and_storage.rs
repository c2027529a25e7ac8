use spacemaxxer::hash::hash_string;
use spacemaxxer::render::{file_hue, folder_lightness, stroke_width};
use spacemaxxer::storage::{format_for_flag, frame_output, OutputFormat};
use std::collections::hash_map::DefaultHasher;
use std::hash::{Hash, Hasher};

fn std_hash(s: &str) -> u64 {
    let mut hasher = DefaultHasher::new();
    s.hash(&mut hasher);
    hasher.finish()
}

#[test]
fn hash_string_agrees_with_hashing_a_str() {
    for s in ["", "a", "island_A", "file_1.txt", "黑风雷", "a much longer name with spaces.tar.gz"] {
        assert_eq!(hash_string(s), std_hash(s), "{}", s);
    }
}

#[test]
fn hash_string_is_deterministic_and_tells_names_apart() {
    assert_eq!(hash_string("island_A"), hash_string("island_A"));
    assert_ne!(hash_string("island_A"), hash_string("island_B"));
    assert_ne!(hash_string("ab"), hash_string("ba"));
}

#[test]
fn folder_lightness_grows_with_depth_up_to_fifty() {
    assert_eq!(folder_lightness(0), Some(10));
    assert_eq!(folder_lightness(1), Some(15));
    assert_eq!(folder_lightness(5), Some(35));
    assert_eq!(folder_lightness(8), Some(50));
    assert_eq!(folder_lightness(9), Some(50));
    assert_eq!(folder_lightness(1000), Some(50));
}

#[test]
fn folder_lightness_overflow_is_reported() {
    assert_eq!(folder_lightness(usize::MAX), None);
    assert_eq!(folder_lightness(usize::MAX / 5), None);
    assert_eq!(folder_lightness((usize::MAX - 10) / 5), Some(50));
}

#[test]
fn file_hue_is_the_byte_sum_modulo_360() {
    assert_eq!(file_hue(""), Some(0));
    assert_eq!(file_hue("a"), Some(97));
    assert_eq!(file_hue("ab"), Some(195));
    assert_eq!(file_hue("zzzz"), Some(488 % 360));
    // 'é' is the two bytes 0xC3 0xA9.
    assert_eq!(file_hue("é"), Some((0xC3 + 0xA9) % 360));
}

#[test]
fn stroke_is_thicker_for_folders() {
    assert_eq!(stroke_width(true), "2.0");
    assert_eq!(stroke_width(false), "0.5");
}

#[test]
fn json_flag_selects_json_and_its_extension() {
    assert_eq!(format_for_flag(true), (OutputFormat::Json, "json"));
    assert_eq!(format_for_flag(false), (OutputFormat::Binary, "bin"));
}

#[test]
fn json_output_ends_with_a_newline() {
    let file = frame_output(OutputFormat::Json, b"{}".to_vec());
    assert_eq!(file, b"{}\n".to_vec());
}

#[test]
fn binary_output_is_written_as_it_is() {
    let file = frame_output(OutputFormat::Binary, vec![1, 2, 3]);
    assert_eq!(file, vec![1, 2, 3]);
    assert_eq!(frame_output(OutputFormat::Binary, Vec::new()), Vec::<u8>::new());
}
