use vstd::prelude::*;
use vstd::string::*;
use crate::services::bracket_generator::starts_with;
use crate::text::{contains_text, copy_string, has_substring, is_err_with, lowercase, replace_text, replaced, texts, to_lowercase, trim, trim_text};

verus! {

// ─── Image search results ───────────────────────────────────────────────

/// One image found by the web image search.
#[derive(Debug)]
pub struct ScrapedImage {
    pub url: String,
    pub thumbnail: String,
    pub title: String,
}

impl Clone for ScrapedImage {
    fn clone(&self) -> (r: Self)
        ensures
            r == *self,
    {
        ScrapedImage { url: copy_string(&self.url), thumbnail: copy_string(&self.thumbnail), title: copy_string(&self.title) }
    }
}

/// The texts of an image: address, thumbnail address and title.
pub open spec fn image_text(i: ScrapedImage) -> (Seq<char>, Seq<char>, Seq<char>) {
    (i.url@, i.thumbnail@, i.title@)
}

/// The most images one search keeps.
pub const MAX_IMAGES: usize = 20;

// ─── The search request ─────────────────────────────────────────────────

/// The text searched for: the query, with " png logo" added unless it
/// already mentions "png" in any case.
pub open spec fn search_text(q: Seq<char>) -> Seq<char> {
    if contains_text(lowercase(q), "png"@) {
        q
    } else {
        q + " png logo"@
    }
}

/// The text searched for `query`.
pub fn search_query_for(query: &str) -> (r: String)
    ensures
        r@ == search_text(query@),
{
    let lower = to_lowercase(query);
    if has_substring(lower.as_str(), "png") {
        String::from_str(query)
    } else {
        String::from_str(query).concat(" png logo")
    }
}

/// The query sent for a logo search typed as `q` for a team playing
/// `game`: nothing for a blank query; the game added unless the query
/// already names it (in any case); " liquipedia" added unless the query
/// names Liquipedia or Wikipedia.
pub open spec fn picker_text(q: Seq<char>, game: Option<Seq<char>>) -> Option<Seq<char>> {
    if trim_text(q).len() == 0 {
        None
    } else {
        let q1 = match game {
            Some(g) => if g.len() > 0 && !contains_text(lowercase(q), lowercase(g)) {
                q + " "@ + g
            } else {
                q
            },
            None => q,
        };
        if !contains_text(lowercase(q1), "liquipedia"@) && !contains_text(lowercase(q1), "wikipedia"@) {
            Some(q1 + " liquipedia"@)
        } else {
            Some(q1)
        }
    }
}

/// The query sent for a logo search (see `picker_text`).
pub fn picker_query(query: &str, game: &Option<String>) -> (r: Option<String>)
    ensures
        opt_text(r) == picker_text(query@, opt_text(*game)),
{
    if trim(query).as_str().unicode_len() == 0 {
        return None;
    }
    let mut q = String::from_str(query);
    match game {
        Some(g) => {
            if g.as_str().unicode_len() > 0 {
                let lq = to_lowercase(query);
                let lg = to_lowercase(g.as_str());
                if !has_substring(lq.as_str(), lg.as_str()) {
                    q = q.concat(" ").concat(g.as_str());
                }
            }
        },
        None => {},
    }
    let lower = to_lowercase(q.as_str());
    if !has_substring(lower.as_str(), "liquipedia") && !has_substring(lower.as_str(), "wikipedia") {
        q = q.concat(" liquipedia");
    }
    Some(q)
}

/// The upper-case hexadecimal digit for `d` below 16.
pub open spec fn hex_digit(d: u32) -> char {
    if d < 10 { (48 + d) as char } else { (55 + d) as char }
}

/// ASCII characters that percent-encoding leaves alone.
pub open spec fn url_safe(c: char) -> bool {
    ('0' <= c && c <= '9') || ('A' <= c && c <= 'Z') || ('a' <= c && c <= 'z') || c == '-' || c == '.' || c == '_' || c == '~'
}

/// The UTF-8 encoding of `c`.
pub open spec fn utf8_bytes(c: char) -> Seq<u8> {
    let v = c as u32;
    if v < 0x80 {
        seq![v as u8]
    } else if v < 0x800 {
        seq![(0xC0 + v / 64) as u8, (0x80 + v % 64) as u8]
    } else if v < 0x1_0000 {
        seq![(0xE0 + v / 4096) as u8, (0x80 + (v / 64) % 64) as u8, (0x80 + v % 64) as u8]
    } else {
        seq![(0xF0 + v / 262144) as u8, (0x80 + (v / 4096) % 64) as u8, (0x80 + (v / 64) % 64) as u8, (0x80 + v % 64) as u8]
    }
}

/// One byte percent-encoded: a safe ASCII byte as itself, any other as
/// `%XX` with upper-case hexadecimal digits.
pub open spec fn byte_url_encoded(b: u8) -> Seq<char> {
    if url_safe(b as char) {
        seq![b as char]
    } else {
        seq!['%', hex_digit((b / 16) as u32), hex_digit((b % 16) as u32)]
    }
}

/// Bytes percent-encoded one after another.
pub open spec fn bytes_url_encoded(bs: Seq<u8>) -> Seq<char>
    decreases bs.len(),
{
    if bs.len() == 0 {
        Seq::empty()
    } else {
        byte_url_encoded(bs[0]) + bytes_url_encoded(bs.drop_first())
    }
}

/// `s` percent-encoded for a URL query: every UTF-8 byte of every
/// character, safe ASCII bytes kept and the others written `%XX`.
pub open spec fn url_encoded(s: Seq<char>) -> Seq<char>
    decreases s.len(),
{
    if s.len() == 0 {
        Seq::empty()
    } else {
        bytes_url_encoded(utf8_bytes(s[0])) + url_encoded(s.drop_first())
    }
}

/// `urlencoding::encode` and `Cow::into_owned`: the UTF-8 bytes of `s`,
/// each ASCII letter, digit and `-._~` kept and every other byte written
/// `%XX` in upper-case hexadecimal.
#[verifier::external_body]
fn url_encode(s: &str) -> (r: String)
    ensures
        r@ == url_encoded(s@),
{
    urlencoding::encode(s).into_owned()
}

/// The address of the image search results page for `query`.
pub fn search_url(query: &str) -> (r: String)
    ensures
        r@ == "https://www.bing.com/images/search?q="@ + url_encoded(search_text(query@)) + "&form=HDRSC2&first=1"@,
{
    let q = search_query_for(query);
    let encoded = url_encode(q.as_str());
    String::from_str("https://www.bing.com/images/search?q=").concat(encoded.as_str()).concat("&form=HDRSC2&first=1")
}

// ─── Reading the results page ───────────────────────────────────────────

/// Whether `regex::Regex::new` accepts `pattern`.
pub uninterp spec fn regex_compiles(pattern: Seq<char>) -> bool;

/// Capture group 1 of each successive non-overlapping match of `pattern` in
/// `text`, as `regex::Regex::captures_iter` finds them.
pub uninterp spec fn regex_group_all(pattern: Seq<char>, text: Seq<char>) -> Seq<Seq<char>>;

/// Capture group 1 of the leftmost match of `pattern` in `text`, as
/// `regex::Regex::captures` finds it, if there is a match.
pub uninterp spec fn regex_group_first(pattern: Seq<char>, text: Seq<char>) -> Option<Seq<char>>;

/// `regex::Regex::new(pattern)` then `captures_iter(text)`, keeping group 1
/// of each match (empty where the group took no part). Both results depend
/// on the pattern and the text alone and are named, not spelled out.
#[verifier::external_body]
fn regex_groups(pattern: &str, text: &str) -> (r: Result<Vec<String>, String>)
    ensures
        r is Ok <==> regex_compiles(pattern@),
        r matches Ok(v) ==> texts(v@) == regex_group_all(pattern@, text@),
        r matches Err(e) ==> starts_with(e@, "Regex error: "@),
{
    match regex::Regex::new(pattern) {
        Ok(re) => Ok(re.captures_iter(text).map(|c| c.get(1).map_or(String::new(), |m| m.as_str().to_string())).collect()),
        Err(e) => Err(format!("Regex error: {}", e)),
    }
}

/// `regex::Regex::new(pattern)` then `captures(text)`, keeping group 1 of
/// the leftmost match. Both results depend on the pattern and the text
/// alone and are named, not spelled out.
#[verifier::external_body]
fn regex_first_group(pattern: &str, text: &str) -> (r: Result<Option<String>, String>)
    ensures
        r is Ok <==> regex_compiles(pattern@),
        r matches Ok(o) ==> (match o {
            Some(g) => regex_group_first(pattern@, text@) == Some(g@),
            None => regex_group_first(pattern@, text@) is None,
        }),
        r matches Err(e) ==> starts_with(e@, "Regex error: "@),
{
    match regex::Regex::new(pattern) {
        Ok(re) => Ok(re.captures(text).map(|c| c.get(1).map_or(String::new(), |m| m.as_str().to_string()))),
        Err(e) => Err(format!("Regex error: {}", e)),
    }
}

/// The data attribute in which the results page describes each image.
pub const ATTRIBUTE_PATTERN: &'static str = r#"m="([^"]+)""#;
/// The full-size image address inside an image's data.
pub const IMAGE_URL_PATTERN: &'static str = r#"&quot;murl&quot;:&quot;(https?://[^&]+)&quot;"#;
/// The thumbnail address inside an image's data.
pub const THUMBNAIL_PATTERN: &'static str = r#"&quot;turl&quot;:&quot;(https?://[^&]+)&quot;"#;
/// The title inside an image's data.
pub const TITLE_PATTERN: &'static str = r#"&quot;t&quot;:&quot;([^&]+)&quot;"#;

/// The text of an optional string.
pub open spec fn opt_text(o: Option<String>) -> Option<Seq<char>> {
    match o {
        Some(s) => Some(s@),
        None => None,
    }
}

/// What one image's data gives: its address, thumbnail and title, each
/// if found.
pub type ImageFields = (Option<String>, Option<String>, Option<String>);

/// The texts of the fields found for one image.
pub open spec fn fields_text(f: ImageFields) -> (Option<Seq<char>>, Option<Seq<char>>, Option<Seq<char>>) {
    (opt_text(f.0), opt_text(f.1), opt_text(f.2))
}

/// An image from its found fields: escaped slashes restored, the thumbnail
/// falling back to the image and its `&amp;` decoded, the title falling back
/// to "Image".
pub open spec fn cleaned_image(url: Seq<char>, thumb: Option<Seq<char>>, title: Option<Seq<char>>) -> (Seq<char>, Seq<char>, Seq<char>) {
    let t = match thumb {
        Some(x) => x,
        None => url,
    };
    let ti = match title {
        Some(x) => x,
        None => "Image"@,
    };
    (replaced(url, "\\/"@, "/"@), replaced(replaced(t, "\\/"@, "/"@), "&amp;"@, "&"@), replaced(ti, "\\/"@, "/"@))
}

/// Whether an image with address `url` is among `imgs`.
pub open spec fn has_url(imgs: Seq<(Seq<char>, Seq<char>, Seq<char>)>, url: Seq<char>) -> bool {
    exists|j: int| 0 <= j < imgs.len() && #[trigger] imgs[j].0 == url
}

/// The images gathered from the first `k` entries of `found`: entries
/// without an address are skipped, and so are repeated addresses; at most
/// `MAX_IMAGES` are kept, the first ones.
pub open spec fn gathered(found: Seq<(Option<Seq<char>>, Option<Seq<char>>, Option<Seq<char>>)>, k: int) -> Seq<(Seq<char>, Seq<char>, Seq<char>)>
    decreases k,
{
    if k <= 0 {
        Seq::empty()
    } else {
        let prev = gathered(found, k - 1);
        let f = found[k - 1];
        if prev.len() >= MAX_IMAGES || f.0 is None {
            prev
        } else {
            let img = cleaned_image(f.0->Some_0, f.1, f.2);
            if has_url(prev, img.0) {
                prev
            } else {
                prev.push(img)
            }
        }
    }
}

/// The image made from found fields with an address.
pub fn clean_image(url: &str, thumb: &Option<String>, title: &Option<String>) -> (r: ScrapedImage)
    ensures
        image_text(r) == cleaned_image(url@, opt_text(*thumb), opt_text(*title)),
{
    proof {
        reveal_strlit("\\/");
        reveal_strlit("&amp;");
    }
    let t = match thumb {
        Some(x) => x.as_str(),
        None => url,
    };
    let clean_url = replace_text(url, "\\/", "/");
    let clean_thumb = replace_text(replace_text(t, "\\/", "/").as_str(), "&amp;", "&");
    let clean_title = match title {
        Some(x) => replace_text(x.as_str(), "\\/", "/"),
        None => replace_text("Image", "\\/", "/"),
    };
    ScrapedImage { url: clean_url, thumbnail: clean_thumb, title: clean_title }
}

fn url_taken(imgs: &Vec<ScrapedImage>, url: &str) -> (r: bool)
    ensures
        r == has_url(imgs@.map_values(|i: ScrapedImage| image_text(i)), url@),
{
    let ghost v = imgs@.map_values(|i: ScrapedImage| image_text(i));
    let mut j: usize = 0;
    while j < imgs.len()
        invariant
            v == imgs@.map_values(|i: ScrapedImage| image_text(i)),
            j <= imgs@.len(),
            forall|t: int| 0 <= t < j ==> v[t].0 != url@,
        decreases imgs@.len() - j,
    {
        if crate::text::str_eq(imgs[j].url.as_str(), url) {
            assert(v[j as int].0 == url@);
            return true;
        }
        j = j + 1;
    }
    false
}

/// The images gathered from the fields found for each image data
/// attribute, in page order.
pub fn gather_images(found: &Vec<ImageFields>) -> (r: Vec<ScrapedImage>)
    ensures
        r@.map_values(|i: ScrapedImage| image_text(i)) == gathered(found@.map_values(|f: ImageFields| fields_text(f)), found@.len() as int),
{
    let ghost fv = found@.map_values(|f: ImageFields| fields_text(f));
    let mut out: Vec<ScrapedImage> = Vec::new();
    let mut k: usize = 0;
    while k < found.len()
        invariant
            fv == found@.map_values(|f: ImageFields| fields_text(f)),
            k <= found@.len(),
            out@.map_values(|i: ScrapedImage| image_text(i)) == gathered(fv, k as int),
        decreases found@.len() - k,
    {
        let ghost prev = out@.map_values(|i: ScrapedImage| image_text(i));
        assert(fv[k as int] == fields_text(found@[k as int]));
        if out.len() < MAX_IMAGES {
            match &found[k].0 {
                Some(url) => {
                    let img = clean_image(url.as_str(), &found[k].1, &found[k].2);
                    if !url_taken(&out, img.url.as_str()) {
                        out.push(img);
                        proof {
                            assert(out@.map_values(|i: ScrapedImage| image_text(i)) =~= prev.push(image_text(img)));
                        }
                    }
                },
                None => {},
            }
        }
        k = k + 1;
    }
    out
}

// ─── Ordering the results ───────────────────────────────────────────────

/// Whether an image address is on a wiki (Liquipedia, Wikipedia,
/// Wikimedia or Fandom).
pub open spec fn is_wiki_url(u: Seq<char>) -> bool {
    contains_text(u, "liquipedia.net"@) || contains_text(u, "wikipedia.org"@) || contains_text(u, "wikimedia.org"@) || contains_text(u, "fandom.com"@)
}

/// The first `k` images split into those on a wiki and the others, each
/// part in the order it came in.
pub open spec fn wiki_split(v: Seq<(Seq<char>, Seq<char>, Seq<char>)>, k: int) -> (Seq<(Seq<char>, Seq<char>, Seq<char>)>, Seq<(Seq<char>, Seq<char>, Seq<char>)>)
    decreases k,
{
    if k <= 0 {
        (Seq::empty(), Seq::empty())
    } else {
        let p = wiki_split(v, k - 1);
        if is_wiki_url(v[k - 1].0) {
            (p.0.push(v[k - 1]), p.1)
        } else {
            (p.0, p.1.push(v[k - 1]))
        }
    }
}

/// The images with those on a wiki first, each part in the order it came in.
pub open spec fn wiki_first(v: Seq<(Seq<char>, Seq<char>, Seq<char>)>) -> Seq<(Seq<char>, Seq<char>, Seq<char>)> {
    wiki_split(v, v.len() as int).0 + wiki_split(v, v.len() as int).1
}

/// Whether an image address is on a wiki.
pub fn is_wiki(url: &str) -> (r: bool)
    ensures
        r == is_wiki_url(url@),
{
    has_substring(url, "liquipedia.net") || has_substring(url, "wikipedia.org") || has_substring(url, "wikimedia.org")
        || has_substring(url, "fandom.com")
}

proof fn lemma_wiki_split_len(v: Seq<(Seq<char>, Seq<char>, Seq<char>)>, k: int)
    requires
        0 <= k <= v.len(),
    ensures
        wiki_split(v, k).0.len() + wiki_split(v, k).1.len() == k,
    decreases k,
{
    if k > 0 {
        lemma_wiki_split_len(v, k - 1);
    }
}

/// The images with those on a wiki first; no images at all is an error.
pub fn prioritize_images(results: Vec<ScrapedImage>) -> (r: Result<Vec<ScrapedImage>, String>)
    ensures
        results@.len() == 0 ==> is_err_with(r, "No images found. Try a different query."@),
        results@.len() > 0 ==> (r matches Ok(v)
            && v@.map_values(|i: ScrapedImage| image_text(i)) == wiki_first(results@.map_values(|i: ScrapedImage| image_text(i)))),
{
    let ghost rv = results@.map_values(|i: ScrapedImage| image_text(i));
    let mut wiki: Vec<ScrapedImage> = Vec::new();
    let mut other: Vec<ScrapedImage> = Vec::new();
    let mut k: usize = 0;
    while k < results.len()
        invariant
            rv == results@.map_values(|i: ScrapedImage| image_text(i)),
            k <= results@.len(),
            wiki@.map_values(|i: ScrapedImage| image_text(i)) == wiki_split(rv, k as int).0,
            other@.map_values(|i: ScrapedImage| image_text(i)) == wiki_split(rv, k as int).1,
        decreases results@.len() - k,
    {
        let img = results[k].clone();
        let ghost w0 = wiki@.map_values(|i: ScrapedImage| image_text(i));
        let ghost o0 = other@.map_values(|i: ScrapedImage| image_text(i));
        assert(rv[k as int] == image_text(img));
        if is_wiki(img.url.as_str()) {
            wiki.push(img);
            proof {
                assert(wiki@.map_values(|i: ScrapedImage| image_text(i)) =~= w0.push(image_text(img)));
            }
        } else {
            other.push(img);
            proof {
                assert(other@.map_values(|i: ScrapedImage| image_text(i)) =~= o0.push(image_text(img)));
            }
        }
        k = k + 1;
    }
    let ghost w = wiki@;
    let mut j: usize = 0;
    while j < other.len()
        invariant
            j <= other@.len(),
            wiki@ == w + other@.take(j as int),
        decreases other@.len() - j,
    {
        wiki.push(other[j].clone());
        proof {
            assert(other@.take(j + 1) =~= other@.take(j as int).push(other@[j as int]));
        }
        j = j + 1;
    }
    proof {
        assert(other@.take(other@.len() as int) =~= other@);
        assert(wiki@.map_values(|i: ScrapedImage| image_text(i)) =~= w.map_values(|i: ScrapedImage| image_text(i))
            + other@.map_values(|i: ScrapedImage| image_text(i)));
        lemma_wiki_split_len(rv, rv.len() as int);
    }
    if wiki.len() == 0 {
        return Err(String::from_str("No images found. Try a different query."));
    }
    Ok(wiki)
}

// ─── The whole page ─────────────────────────────────────────────────────

/// The fields found in each image data attribute `attrs` holds.
pub open spec fn found_fields(attrs: Seq<Seq<char>>) -> Seq<(Option<Seq<char>>, Option<Seq<char>>, Option<Seq<char>>)> {
    attrs.map_values(|a: Seq<char>| (
        regex_group_first(IMAGE_URL_PATTERN@, a),
        regex_group_first(THUMBNAIL_PATTERN@, a),
        regex_group_first(TITLE_PATTERN@, a),
    ))
}

/// Whether every pattern the page is read with compiles.
pub open spec fn patterns_compile() -> bool {
    regex_compiles(ATTRIBUTE_PATTERN@) && regex_compiles(IMAGE_URL_PATTERN@) && regex_compiles(THUMBNAIL_PATTERN@)
        && regex_compiles(TITLE_PATTERN@)
}

/// The images described on the results page `html`, those on a wiki first;
/// an error when none is found (or a pattern does not compile).
pub fn images_from_html(html: &str) -> (r: Result<Vec<ScrapedImage>, String>)
    ensures
        !patterns_compile() ==> (r matches Err(e) && starts_with(e@, "Regex error: "@)),
        patterns_compile() ==> {
            let found = found_fields(regex_group_all(ATTRIBUTE_PATTERN@, html@));
            let imgs = gathered(found, found.len() as int);
            &&& imgs.len() == 0 ==> is_err_with(r, "No images found. Try a different query."@)
            &&& imgs.len() > 0 ==> (r matches Ok(v) && v@.map_values(|i: ScrapedImage| image_text(i)) == wiki_first(imgs))
        },
{
    regex_first_group(IMAGE_URL_PATTERN, "")?;
    regex_first_group(THUMBNAIL_PATTERN, "")?;
    regex_first_group(TITLE_PATTERN, "")?;
    let attrs = regex_groups(ATTRIBUTE_PATTERN, html)?;
    let ghost av = texts(attrs@);
    let mut found: Vec<ImageFields> = Vec::new();
    let mut k: usize = 0;
    while k < attrs.len()
        invariant
            av == texts(attrs@),
            patterns_compile(),
            k <= attrs@.len(),
            found@.map_values(|f: ImageFields| fields_text(f)) == found_fields(av).take(k as int),
        decreases attrs@.len() - k,
    {
        let a = attrs[k].as_str();
        let url = match regex_first_group(IMAGE_URL_PATTERN, a) {
            Ok(o) => o,
            Err(_) => None,
        };
        let thumb = match regex_first_group(THUMBNAIL_PATTERN, a) {
            Ok(o) => o,
            Err(_) => None,
        };
        let title = match regex_first_group(TITLE_PATTERN, a) {
            Ok(o) => o,
            Err(_) => None,
        };
        let ghost before = found@.map_values(|f: ImageFields| fields_text(f));
        let entry: ImageFields = (url, thumb, title);
        let ghost e = entry;
        found.push(entry);
        proof {
            assert(av[k as int] == attrs@[k as int]@);
            assert(opt_text(e.0) == regex_group_first(IMAGE_URL_PATTERN@, av[k as int]));
            assert(opt_text(e.1) == regex_group_first(THUMBNAIL_PATTERN@, av[k as int]));
            assert(opt_text(e.2) == regex_group_first(TITLE_PATTERN@, av[k as int]));
            assert(fields_text(e) == found_fields(av)[k as int]);
            assert(found@.map_values(|f: ImageFields| fields_text(f)) =~= before.push(fields_text(e)));
            assert(found_fields(av).take(k + 1) =~= found_fields(av).take(k as int).push(found_fields(av)[k as int]));
            assert(found@.map_values(|f: ImageFields| fields_text(f)) =~= found_fields(av).take(k + 1));
        }
        k = k + 1;
    }
    proof {
        assert(found_fields(av).take(attrs@.len() as int) =~= found_fields(av));
    }
    let imgs = gather_images(&found);
    prioritize_images(imgs)
}

/// Refuses a download too small to be an image.
pub fn check_image_bytes(bytes: Vec<u8>) -> (r: Result<Vec<u8>, String>)
    ensures
        bytes@.len() < 100 ==> is_err_with(r, "Downloaded file is too small — likely not a valid image."@),
        bytes@.len() >= 100 ==> r == Ok::<Vec<u8>, String>(bytes),
{
    if bytes.len() < 100 {
        return Err(String::from_str("Downloaded file is too small — likely not a valid image."));
    }
    Ok(bytes)
}

} // verus!
