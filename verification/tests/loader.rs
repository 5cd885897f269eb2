use imgpipe::urls::load_urls;

fn strings(v: &[&str]) -> Vec<String> {
    v.iter().map(|s| s.to_string()).collect()
}

#[test]
fn loader_accepts_valid_and_skips_malformed() {
    let lines = strings(&[
        "https://example.com/a.jpg",
        "not a url",
        "https://example.com/b.png",
        "",
    ]);
    let (entries, skipped) = load_urls(&lines);
    assert_eq!(entries.len(), 2);
    assert_eq!(entries[0].url, "https://example.com/a.jpg");
    assert_eq!(entries[0].path, "/a.jpg");
    assert_eq!(entries[1].url, "https://example.com/b.png");
    assert_eq!(entries[1].path, "/b.png");
    assert_eq!(skipped, strings(&["not a url", ""]));
}

#[test]
fn loader_deduplicates_by_normalized_url() {
    let lines = strings(&[
        "https://example.com",
        "https://example.com/",
        "HTTPS://EXAMPLE.COM",
    ]);
    let (entries, skipped) = load_urls(&lines);
    assert_eq!(entries.len(), 1);
    assert_eq!(entries[0].url, "https://example.com/");
    assert_eq!(entries[0].path, "/");
    assert_eq!(skipped.len(), 0);
}

#[test]
fn loader_normalizes_the_written_form() {
    let lines = strings(&["HTTPS://EXAMPLE.COM/Img/Photo.JPG"]);
    let (entries, _) = load_urls(&lines);
    assert_eq!(entries.len(), 1);
    assert_eq!(entries[0].url, "https://example.com/Img/Photo.JPG");
    assert_eq!(entries[0].path, "/Img/Photo.JPG");
}

#[test]
fn loader_keeps_first_occurrence_order() {
    let lines = strings(&[
        "https://a.net/1.jpg",
        "relative/path.jpg",
        "https://b.net/2.jpg",
        "https://a.net/1.jpg",
    ]);
    let (entries, skipped) = load_urls(&lines);
    assert_eq!(entries.len(), 2);
    assert_eq!(entries[0].url, "https://a.net/1.jpg");
    assert_eq!(entries[1].url, "https://b.net/2.jpg");
    assert_eq!(skipped, strings(&["relative/path.jpg"]));
}

#[test]
fn loader_path_excludes_query_and_fragment() {
    let lines = strings(&["https://example.com/pics/cat.jpg?size=big#top"]);
    let (entries, _) = load_urls(&lines);
    assert_eq!(entries.len(), 1);
    assert_eq!(entries[0].path, "/pics/cat.jpg");
}

#[test]
fn loader_on_empty_input() {
    let (entries, skipped) = load_urls(&Vec::new());
    assert_eq!(entries.len(), 0);
    assert_eq!(skipped.len(), 0);
}
