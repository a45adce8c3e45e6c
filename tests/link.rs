use demoday_enrich::link::{regex_output_to_yt_url, VideoLinkFinder};

#[test]
fn short_link_becomes_watch_url() {
    assert_eq!(regex_output_to_yt_url("youtu.be/abc_-9"), "https://youtube.com/watch?v=abc_-9");
}

#[test]
fn embed_path_becomes_watch_url() {
    assert_eq!(regex_output_to_yt_url("/embed/XyZ123"), "https://youtube.com/watch?v=XyZ123");
}

#[test]
fn text_without_slash_is_kept_whole() {
    assert_eq!(regex_output_to_yt_url("abc"), "https://youtube.com/watch?v=abc");
    assert_eq!(regex_output_to_yt_url(""), "https://youtube.com/watch?v=");
}

#[test]
fn finder_extracts_first_reference() {
    let f = VideoLinkFinder::new().expect("pattern compiles");
    let page = r#"<div><iframe src="https://www.youtube.com/embed/dQw4w9WgXcQ?rel=0"></iframe><a href="https://youtu.be/other">x</a></div>"#;
    assert_eq!(f.link_in(page), Some("https://youtube.com/watch?v=dQw4w9WgXcQ".to_string()));
}

#[test]
fn finder_reads_short_links() {
    let f = VideoLinkFinder::new().expect("pattern compiles");
    assert_eq!(
        f.link_in("see https://youtu.be/k3y-Id_0 now"),
        Some("https://youtube.com/watch?v=k3y-Id_0".to_string())
    );
}

#[test]
fn finder_without_reference_gives_none() {
    let f = VideoLinkFinder::new().expect("pattern compiles");
    assert_eq!(f.link_in("<p>no video here</p>"), None);
}
