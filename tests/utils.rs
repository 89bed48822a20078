use http_fm::utils::{
    absolutize, chars_of, code_from_indices, draw_indices, generate_code, get_last_path_component,
    is_hidden, pick, sample_with_replacement, CODE_LEN,
};

#[test]
fn test_is_hidden() {
    assert!(is_hidden("/prefix/.hiddenFile"));

    assert!(!is_hidden("/prefix/notHiddenFile"));

    assert!(!is_hidden("/tri.cky/prefix/notHiddenFile"));
}

#[test]
fn test_generate_code() {
    assert!(generate_code() != generate_code())
}

#[test]
fn generated_code_has_eight_code_characters() {
    let code = generate_code();
    assert_eq!(CODE_LEN, 8);
    assert_eq!(code.chars().count(), 8);
    assert!(code.chars().all(|c| c.is_ascii_lowercase() || c.is_ascii_digit()));
}

#[test]
fn sample_draws_only_from_the_alphabet() {
    let picked = sample_with_replacement(vec![3u8, 7u8], 50);
    assert_eq!(picked.len(), 50);
    assert!(picked.iter().all(|x| *x == 3 || *x == 7));
    assert!(sample_with_replacement(vec!['q'], 0).is_empty());
}

#[test]
fn last_component_skips_empty_and_dot_segments() {
    assert_eq!(get_last_path_component("/prefix/.hiddenFile").as_deref(), Some(".hiddenFile"));
    assert_eq!(get_last_path_component("a/b/").as_deref(), Some("b"));
    assert_eq!(get_last_path_component("a/b/.").as_deref(), Some("b"));
    assert_eq!(get_last_path_component("a/.."), Some("..".to_string()));
    assert_eq!(get_last_path_component("plain").as_deref(), Some("plain"));
    assert_eq!(get_last_path_component("/").as_deref(), Some("/"));
    assert_eq!(get_last_path_component("//.").as_deref(), Some("/"));
    assert_eq!(get_last_path_component(".").as_deref(), Some("."));
    assert_eq!(get_last_path_component("./").as_deref(), Some("."));
    assert_eq!(get_last_path_component("./a").as_deref(), Some("a"));
    assert_eq!(get_last_path_component(""), None);
}

#[test]
fn hidden_only_looks_at_the_last_component() {
    assert!(is_hidden(".env"));
    assert!(is_hidden("dir/.git/"));
    assert!(!is_hidden(".config/app"));
    assert!(!is_hidden(""));
    assert!(is_hidden("."));
    assert!(!is_hidden("/"));
}

#[test]
fn absolutize_joins_relative_paths() {
    assert_eq!(absolutize("/abs/file", "/home/u"), "/abs/file");
    assert_eq!(absolutize("rel/file", "/home/u"), "/home/u/rel/file");
    assert_eq!(absolutize("rel", "/"), "/rel");
}

#[test]
fn chars_of_keeps_order() {
    assert_eq!(chars_of("héllo"), vec!['h', 'é', 'l', 'l', 'o']);
}

#[test]
fn code_is_spelled_by_indices() {
    assert_eq!(code_from_indices(&vec![0, 25, 26, 35, 1, 2, 3, 10]), "az09bcdk");
    assert_eq!(code_from_indices(&vec![]), "");
}

#[test]
fn pick_takes_items_at_positions() {
    assert_eq!(pick(&vec!['x', 'y', 'z'], &vec![2, 0, 0, 1]), vec!['z', 'x', 'x', 'y']);
    assert!(pick(&vec![1u8], &vec![]).is_empty());
}

#[test]
fn drawn_indices_stay_below_bound() {
    let idx = draw_indices(3, 100);
    assert_eq!(idx.len(), 100);
    assert!(idx.iter().all(|k| *k < 3));
    assert!(draw_indices(1, 5).iter().all(|k| *k == 0));
}
