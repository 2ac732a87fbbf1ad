use md_image_cache::naming::{compose_link, get_path_ext, local_file_name};

#[test]
fn ext_simple() {
    assert_eq!(get_path_ext("foo/bar.jpg"), Some(".jpg"));
}

#[test]
fn ext_query_string_rejected() {
    assert_eq!(get_path_ext("foo/bar.jpg?x=1"), None);
}

#[test]
fn ext_no_dot() {
    assert_eq!(get_path_ext("foo/bar"), None);
}

#[test]
fn ext_takes_last_dot() {
    assert_eq!(get_path_ext("a.b/c.d.png"), Some(".png"));
}

#[test]
fn file_name_known_digest() {
    assert_eq!(
        local_file_name("https://i.v2ex.co/R7yApIA5s.jpeg"),
        "e3d093edf299313347493eed24e85330ea22eafc.jpeg"
    );
    assert_eq!(
        local_file_name("https://i.v2ex.co/BU0hPU5qs.jpeg"),
        "e49534e68a0621048244877cf8ed30d2c93cb810.jpeg"
    );
}

#[test]
fn file_name_without_extension() {
    let name = local_file_name("http://y");
    assert_eq!(name, "01a39538b5ac8a8e9a875403fb9d5fc38b09fd9b");
    assert_eq!(name.len(), 40);
}

#[test]
fn file_name_idempotent() {
    let a = local_file_name("http://x/a.png");
    let b = local_file_name("http://x/a.png");
    assert_eq!(a, b);
    assert_eq!(a, "14ce3f009a52da63734b550c318bad6a2219c164.png");
}

#[test]
fn link_composition() {
    assert_eq!(compose_link("/images", "a.png"), "/images/a.png");
    assert_eq!(compose_link("/images/", "a.png"), "/images/a.png");
    assert_eq!(compose_link("", "a.png"), "/a.png");
}
