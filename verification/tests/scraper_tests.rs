use tourvia::scraper::{
    check_image_bytes, clean_image, gather_images, images_from_html, is_wiki, picker_query, prioritize_images, search_query_for, search_url,
    ScrapedImage,
};

fn entry(url: &str, thumb: &str, title: &str) -> String {
    format!(
        r#"<a class="iusc" m="{{&quot;murl&quot;:&quot;{}&quot;,&quot;turl&quot;:&quot;{}&quot;,&quot;t&quot;:&quot;{}&quot;}}">"#,
        url, thumb, title
    )
}

#[test]
fn the_search_text_asks_for_png_logos() {
    assert_eq!(search_query_for("RRQ"), "RRQ png logo");
    assert_eq!(search_query_for("RRQ PNG"), "RRQ PNG");
    assert_eq!(search_url("RRQ"), "https://www.bing.com/images/search?q=RRQ%20png%20logo&form=HDRSC2&first=1");
    assert_eq!(search_url("a&b.png"), "https://www.bing.com/images/search?q=a%26b.png&form=HDRSC2&first=1");
}

#[test]
fn wiki_hosts() {
    assert!(is_wiki("https://liquipedia.net/x.png"));
    assert!(is_wiki("https://upload.wikimedia.org/x.png"));
    assert!(is_wiki("https://team.fandom.com/x.png"));
    assert!(!is_wiki("https://example.com/x.png"));
}

#[test]
fn reading_a_results_page() {
    let html = [
        entry("https://example.com\\/a.png", "https://tse.mm.bing.net/th?id=1", "Team \\/ A"),
        entry("https://liquipedia.net/b.png", "https://tse.mm.bing.net/b", "B"),
        entry("https://example.com\\/a.png", "https://t/dup", "Dup"),
        entry("https://example.com/c.png", "https://t/c&amp;d", "C"),
        r#"<a m="{&quot;t&quot;:&quot;no address&quot;}">"#.to_string(),
    ]
    .concat();
    let imgs = images_from_html(&html).unwrap();
    let urls: Vec<&str> = imgs.iter().map(|i| i.url.as_str()).collect();
    assert_eq!(urls, vec!["https://liquipedia.net/b.png", "https://example.com/a.png", "https://example.com/c.png"]);
    assert_eq!(imgs[1].thumbnail, "https://tse.mm.bing.net/th?id=1");
    assert_eq!(imgs[1].title, "Team / A");
    assert_eq!(imgs[2].thumbnail, "https://example.com/c.png");
}

#[test]
fn a_page_without_images_is_an_error() {
    assert_eq!(images_from_html("<html></html>").unwrap_err(), "No images found. Try a different query.");
}

#[test]
fn at_most_twenty_images_are_kept() {
    let found: Vec<(Option<String>, Option<String>, Option<String>)> =
        (0..30).map(|i| (Some(format!("https://x.org/{}.png", i)), None, None)).collect();
    let imgs = gather_images(&found);
    assert_eq!(imgs.len(), 20);
    assert_eq!(imgs[19].url, "https://x.org/19.png");
    assert_eq!(imgs[0].thumbnail, "https://x.org/0.png");
    assert_eq!(imgs[0].title, "Image");
}

#[test]
fn cleaning_found_fields() {
    let img = clean_image("https:\\/\\/a\\/b", &None, &Some("T\\/U".to_string()));
    assert_eq!((img.url.as_str(), img.thumbnail.as_str(), img.title.as_str()), ("https://a/b", "https://a/b", "T/U"));
    let img = clean_image("u", &Some("https:\\/\\/t?a=1&amp;b=2".to_string()), &None);
    assert_eq!((img.thumbnail.as_str(), img.title.as_str()), ("https://t?a=1&b=2", "Image"));
}

#[test]
fn wiki_images_come_first_in_order() {
    let mk = |u: &str| ScrapedImage { url: u.to_string(), thumbnail: String::new(), title: String::new() };
    let out = prioritize_images(vec![mk("https://a.com/1"), mk("https://en.wikipedia.org/2"), mk("https://b.com/3"), mk("https://x.fandom.com/4")])
        .unwrap();
    let urls: Vec<&str> = out.iter().map(|i| i.url.as_str()).collect();
    assert_eq!(urls, vec!["https://en.wikipedia.org/2", "https://x.fandom.com/4", "https://a.com/1", "https://b.com/3"]);
    assert_eq!(prioritize_images(vec![]).unwrap_err(), "No images found. Try a different query.");
}

#[test]
fn downloads_too_small_to_be_images() {
    assert_eq!(check_image_bytes(vec![0u8; 99]).unwrap_err(), "Downloaded file is too small — likely not a valid image.");
    assert_eq!(check_image_bytes(vec![7u8; 100]), Ok(vec![7u8; 100]));
}

#[test]
fn logo_search_queries() {
    assert_eq!(picker_query("   ", &None), None);
    assert_eq!(picker_query("RRQ", &Some("Valorant".to_string())), Some("RRQ Valorant liquipedia".to_string()));
    assert_eq!(picker_query("RRQ valorant", &Some("Valorant".to_string())), Some("RRQ valorant liquipedia".to_string()));
    assert_eq!(picker_query("RRQ Wikipedia", &None), Some("RRQ Wikipedia".to_string()));
    assert_eq!(picker_query("x", &Some(String::new())), Some("x liquipedia".to_string()));
}

#[test]
fn search_urls_encode_every_utf8_byte() {
    let url = search_url("Élan ß");
    assert!(url.starts_with("https://www.bing.com/images/search?q="));
    assert!(url.contains("%C3%89lan%20%C3%9F"));
    assert!(url.ends_with("&form=HDRSC2&first=1"));
}
