use oasis::config::get_listen_address;
use oasis::decimal::{to_decimal, to_signed_decimal};
use oasis::filename::{base_name_of, contains_name, get_valid_filename};
use oasis::upload::{infer_file_type, FileType};

fn names(list: &[&str]) -> Vec<String> {
    list.iter().map(|s| s.to_string()).collect()
}

#[test]
fn two_uploads_of_the_same_name_get_distinct_paths() {
    let mut dir: Vec<String> = Vec::new();
    let first = get_valid_filename(&dir, "a.txt");
    assert_eq!(first, "a.txt");
    dir.push(first);
    let second = get_valid_filename(&dir, "a.txt");
    assert_eq!(second, "a-0.txt");
}

#[test]
fn suffix_counts_up_until_free() {
    let dir = names(&["a.txt", "a-0.txt", "a-1.txt", "b.txt"]);
    assert_eq!(get_valid_filename(&dir, "a.txt"), "a-2.txt");
    assert_eq!(get_valid_filename(&dir, "b.txt"), "b-0.txt");
    assert_eq!(get_valid_filename(&dir, "c.txt"), "c.txt");
}

#[test]
fn suffix_goes_before_the_last_dot_only() {
    let dir = names(&["archive.tar.gz", "README", ".profile"]);
    assert_eq!(get_valid_filename(&dir, "archive.tar.gz"), "archive.tar-0.gz");
    assert_eq!(get_valid_filename(&dir, "README"), "README-0");
    assert_eq!(get_valid_filename(&dir, ".profile"), "-0.profile");
}

#[test]
fn suffix_skips_taken_numbers_past_ten() {
    let mut dir = names(&["x.bin"]);
    for i in 0..11 {
        dir.push(format!("x-{}.bin", i));
    }
    assert_eq!(get_valid_filename(&dir, "x.bin"), "x-11.bin");
}

#[test]
fn contains_name_compares_whole_names() {
    let dir = names(&["a.txt", "b.txt"]);
    assert!(contains_name(&dir, &"b.txt".to_string()));
    assert!(!contains_name(&dir, &"a.tx".to_string()));
}

#[test]
fn decimal_text_of_numbers() {
    assert_eq!(to_decimal(0), "0");
    assert_eq!(to_decimal(1234), "1234");
    assert_eq!(to_decimal(u64::MAX), "18446744073709551615");
    assert_eq!(to_signed_decimal(-42), "-42");
    assert_eq!(to_signed_decimal(7), "7");
    assert_eq!(to_signed_decimal(i64::MIN), "-9223372036854775808");
}

#[test]
fn listen_address_depends_on_stage() {
    assert_eq!(get_listen_address(8000, "prod"), "0.0.0.0:8000");
    assert_eq!(get_listen_address(8000, "dev"), "127.0.0.1:8000");
    assert_eq!(get_listen_address(3000, "production"), "127.0.0.1:3000");
}

#[test]
fn file_type_follows_last_extension() {
    assert_eq!(infer_file_type("movie.mp4"), FileType::Video);
    assert_eq!(infer_file_type("song.flac"), FileType::Audio);
    assert_eq!(infer_file_type("photo.old.png"), FileType::Image);
    assert_eq!(infer_file_type("paper.pdf"), FileType::Pdf);
    assert_eq!(infer_file_type("notes.md"), FileType::Text);
    assert_eq!(infer_file_type("mp4"), FileType::Unknown);
    assert_eq!(infer_file_type("data.xyz"), FileType::Unknown);
    assert_eq!(FileType::Video.name(), "Video");
}

#[test]
fn base_name_drops_directories() {
    assert_eq!(base_name_of("a/b/c.txt"), "c.txt");
    assert_eq!(base_name_of("c.txt"), "c.txt");
    assert_eq!(base_name_of("dir/"), "");
}
