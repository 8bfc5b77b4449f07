use b64d::path_resolver::PathResolver;
use std::path::Path;

fn resolve(path: &Path, taken: &[&str]) -> String {
    let stem = path.file_stem().and_then(|s| s.to_str());
    let ext = path.extension().and_then(|s| s.to_str());
    PathResolver::generate_unique_path(stem, ext, |name: &str| taken.contains(&name)).unwrap()
}

#[test]
fn test_path_resolver_basic() {
    let path = Path::new("dummy_file.txt");
    // Should default to dummy_file-decoded.txt (assuming it doesn't exist)
    let parent = path.parent().unwrap_or_else(|| Path::new("."));
    let stem = path.file_stem().and_then(|s| s.to_str());
    let ext = path.extension().and_then(|s| s.to_str());
    let name =
        PathResolver::generate_unique_path(stem, ext, |n: &str| parent.join(n).exists()).unwrap();
    let resolved = parent.join(name);
    assert_eq!(resolved, Path::new("dummy_file-decoded.txt"));
}

#[test]
fn test_path_resolver_duplicate() {
    let temp_dir = Path::new("test_resolver_dup_dir");
    let input_path = temp_dir.join("sample.txt");
    let first_expected = temp_dir.join("sample-decoded.txt");
    let second_expected = temp_dir.join("sample-decoded(1).txt");

    // Generate when no file exists
    let res1 = temp_dir.join(resolve(&input_path, &[]));
    assert_eq!(res1, first_expected);

    // The first decoded file now exists: should increment to (1)
    let res2 = temp_dir.join(resolve(&input_path, &["sample-decoded.txt"]));
    assert_eq!(res2, second_expected);
}

#[test]
fn resolver_counts_up_past_taken_names() {
    let taken = [
        "photo-decoded.png",
        "photo-decoded(1).png",
        "photo-decoded(2).png",
        "photo-decoded(3).png",
        "photo-decoded(4).png",
        "photo-decoded(5).png",
        "photo-decoded(6).png",
        "photo-decoded(7).png",
        "photo-decoded(8).png",
        "photo-decoded(9).png",
    ];
    assert_eq!(resolve(Path::new("photo.png"), &taken), "photo-decoded(10).png");
    assert_eq!(resolve(Path::new("photo.png"), &taken[..2]), "photo-decoded(2).png");
}

#[test]
fn resolver_without_extension_or_stem() {
    assert_eq!(resolve(Path::new("archive"), &[]), "archive-decoded");
    assert_eq!(
        PathResolver::generate_unique_path(None, None, |_: &str| false).unwrap(),
        "decoded-decoded"
    );
}

#[test]
fn decoded_file_name_formats_index() {
    assert_eq!(PathResolver::decoded_file_name("data", "txt", 0), "data-decoded.txt");
    assert_eq!(PathResolver::decoded_file_name("data", "txt", 42), "data-decoded(42).txt");
    assert_eq!(
        PathResolver::decoded_file_name("a", "", 4294967295),
        "a-decoded(4294967295)"
    );
}

#[test]
fn decoded_names_are_distinct() {
    let mut names: Vec<String> =
        (0..500u32).map(|i| PathResolver::decoded_file_name("x", "y", i)).collect();
    names.sort();
    names.dedup();
    assert_eq!(names.len(), 500);
}
