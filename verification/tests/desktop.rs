use versus::desktop::allows_navigation_to;

#[test]
fn navigation_is_limited_to_the_local_app() {
    for value in ["tauri://localhost/", "http://tauri.localhost/"] {
        assert!(allows_navigation_to(value, true));
    }
    assert!(!allows_navigation_to("https://example.com/", true));
}
