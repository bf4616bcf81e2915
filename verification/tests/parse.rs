use wiki_scraper::page::{
    count_articles, covers, index_url, pages_to_read, parse_index_line, parse_number,
    shard_range, ArticleCount, PageError, ParsedPage, ParsedRevision, StreamCursor, TitleMap,
    find_page, covering_shard, cutoff_reached,
};
use wiki_scraper::memoise::{cache_path, memoise, memoise_bytes, BytesSerde, Outcome, ReadProgressHook};
use wiki_scraper::parse::parse_html_index::{file_names, IndexError};
use wiki_scraper::parse::xml::{
    parse_element, parse_element_at, parse_elements, parse_whitespace, shorten, skip, white,
    CharClass, Dialect,
};
use wiki_scraper::text::{contains_text, decimal_text, replace_all};

const PAGE: &str = "<page>\n    <title>Apple</title>\n    <ns>0</ns>\n    <id>18978754</id>\n    \
                    <redirect title=\"Malus\" />\n    <revision>\n      <id>1223</id>\n      \
                    <parentid>1222</parentid>\n      <timestamp>2024-05-01T12:30:45Z</timestamp>\n      \
                    <contributor>\n        <username>Someone</username>\n        <id>5</id>\n      \
                    </contributor>\n      <minor />\n      <comment>fix</comment>\n      \
                    <model>wikitext</model>\n      <format>text/x-wiki</format>\n      \
                    <text bytes=\"21\" xml:space=\"preserve\">see [[Pear]] and more</text>\n      \
                    <sha1>abc</sha1>\n    </revision>\n  </page>";

#[test]
fn element_with_attributes_text_and_children() {
    let (rest, e) = parse_element("<a href=\"x\" id = \"7\">hello <b>bold</b> tail <c/></a> after").unwrap();
    assert_eq!(rest, " after");
    assert_eq!(e.name, "a");
    assert_eq!(
        e.attributes,
        vec![("href".to_string(), "x".to_string()), ("id".to_string(), "7".to_string())]
    );
    assert_eq!(e.text, "hello ");
    assert_eq!(e.children.len(), 2);
    assert_eq!(e.children[0].name, "b");
    assert_eq!(e.children[0].text, "bold");
    assert_eq!(e.children[1].name, "c");
    assert_eq!(e.find("b").unwrap().text, "bold");
    assert_eq!(e.find("z").unwrap_err().name, "z");
    assert_eq!(e.get_attribute("id").unwrap(), "7");
    assert_eq!(e.get_attribute("class").unwrap_err().name, "class");
}

#[test]
fn self_closing_void_and_implicitly_closed_elements() {
    let (rest, e) = parse_element("<minor />x").unwrap();
    assert_eq!((rest.as_str(), e.name.as_str(), e.children.len()), ("x", "minor", 0));
    let (rest, e) = parse_element("<hr>x").unwrap();
    assert_eq!((rest.as_str(), e.name.as_str()), ("x", "hr"));
    // `b` is closed by the tag of `a`: the tag is left for `a`.
    let (rest, e) = parse_element("<a><b>text</a>!").unwrap();
    assert_eq!(rest, "!");
    assert_eq!(e.children.len(), 1);
    assert_eq!(e.children[0].name, "b");
    assert_eq!(e.children[0].text, "text");
}

#[test]
fn text_that_is_no_element() {
    assert_eq!(parse_element("plain").unwrap_err().position, 0);
    assert_eq!(parse_element("<>").unwrap_err().position, 1);
    // With loose names, `x>` is read as the name of an attribute.
    assert_eq!(parse_element("<a x>").unwrap_err().position, 5);
    assert_eq!(parse_element("<a x=\"1>").unwrap_err().position, 8);
    assert!(parse_element("<a>never closed").is_err());
    assert!(parse_element("").is_err());
    // The index dialect has no tags that close themselves.
    let chars: Vec<char> = "<a/>".chars().collect();
    assert!(parse_element_at(&chars, 0, Dialect::index()).is_err());
    assert!(parse_element_at(&chars, 0, Dialect::xml()).is_ok());
}

#[test]
fn white_space_is_skipped() {
    let chars: Vec<char> = " \t\n\u{a0}\u{2003}x y".chars().collect();
    assert_eq!(parse_whitespace(&chars, 0), 5);
    assert_eq!(parse_whitespace(&chars, 5), 5);
    assert_eq!(skip(&chars, 5, CharClass::Alphanumeric), 6);
    assert_eq!(skip(&chars, 0, CharClass::NotOpen), chars.len());
    for c in ['\u{9}', '\u{d}', ' ', '\u{85}', '\u{1680}', '\u{2028}', '\u{202f}', '\u{3000}'] {
        assert!(white(c) && c.is_whitespace());
    }
    for c in ['a', '\u{8}', '\u{200b}', '\u{feff}', '_'] {
        assert!(!white(c) && !c.is_whitespace());
    }
}

#[test]
fn pages_of_a_part_of_the_dump() {
    let text = format!("  {PAGE}\n  <page><title>Pear</title><id>7</id></page>\n");
    let pages = parse_elements(&text).unwrap();
    assert_eq!(pages.len(), 2);
    let page = ParsedPage::from_element(&pages[0]).unwrap();
    assert_eq!(page.title, "Apple");
    assert_eq!(page.namespace, 0);
    assert_eq!(page.id, 18978754);
    assert_eq!(page.redirect, Some("Malus".to_string()));
    assert_eq!(page.revision.id, 1223);
    assert_eq!(page.revision.model, "wikitext");
    assert_eq!(page.revision.format, "text/x-wiki");
    assert_eq!(page.revision.text, "see [[Pear]] and more");
    assert_eq!(page.revision.timestamp.seconds, 1714566645);
    assert_eq!(page.revision.timestamp.nanos, 0);
    assert_eq!(page.revision.timestamp.offset, 0);

    let found = find_page(&pages, 7).unwrap().unwrap();
    assert_eq!(found.title, "Pear");
    assert!(find_page(&pages, 8).unwrap().is_none());
    assert!(parse_elements("<page></page> junk").is_err());
    assert_eq!(parse_elements("   ").unwrap().len(), 0);
}

#[test]
fn elements_that_are_no_pages() {
    let page = |inner: &str| {
        let (_, e) = parse_element(&format!("<page>{inner}</page>")).unwrap();
        ParsedPage::from_element(&e)
    };
    assert!(matches!(page("<colour>red</colour>"), Err(PageError::Unrecognised(n)) if n == "colour"));
    assert!(matches!(page("<id>many</id>"), Err(PageError::Value(v)) if v == "many"));
    assert!(matches!(page("<ns>99999999999</ns>"), Err(PageError::Value(_))));
    assert!(matches!(page("<redirect />"), Err(PageError::Redirect)));
    assert!(matches!(
        page("<revision><timestamp>yesterday</timestamp></revision>"),
        Err(PageError::Value(v)) if v == "yesterday"
    ));
    assert!(matches!(
        page("<revision><weight>1</weight></revision>"),
        Err(PageError::Unrecognised(n)) if n == "weight"
    ));
    let (_, e) = parse_element("<revision><timestamp>2001-02-03T04:05:06+01:30</timestamp></revision>").unwrap();
    let revision = ParsedRevision::from_element(&e).unwrap();
    assert_eq!(revision.timestamp.offset, 5400);
    assert_eq!(revision.timestamp.seconds, 981167706);
    let (_, e) = parse_element("<page><title>a</title><title>b</title></page>").unwrap();
    assert_eq!(ParsedPage::from_element(&e).unwrap().title, "b");
}

#[test]
fn summaries_shorten_long_texts() {
    assert_eq!(shorten("ab".to_string()), "\"ab\"");
    assert_eq!(shorten("a\"b\n".to_string()), "\"a\\\"b\\n\"");
    let long = "x".repeat(120);
    assert_eq!(shorten(long), format!("\"{}\"... (40 bytes hidden)", "x".repeat(80)));
    let accents = "é".repeat(60);
    assert_eq!(shorten(accents), format!("\"{}\"", "é".repeat(60)) + "... (0 bytes hidden)");
    let accents = "é".repeat(90);
    assert_eq!(shorten(accents), format!("\"{}\"... (20 bytes hidden)", "é".repeat(80)));
    let (_, e) = parse_element("<a k=\"v\" l=\"w\"><b/><c/>text</a>").unwrap();
    assert_eq!(
        e.summarise(),
        "\"a\"\n- attrs: [(\"k\", \"\\\"v\\\"\"), (\"l\", \"\\\"w\\\"\")]\n- children: [\"b\", \"c\"]\n- text: \"\""
    );
    let (_, e) = parse_element("<a>t</a>").unwrap();
    assert_eq!(e.summarise(), "\"a\"\n- attrs: []\n- children: []\n- text: \"t\"");
}

#[test]
fn directory_index_lists_files() {
    let html = "<html><head><title>Index</title></head><body><h1>Index of /enwiki/</h1><hr>\
                <pre><a href=\"../\">../</a><a href=\"20240501/\">20240501/</a>  01-May\
                <a href=\"./\">.</a><a href=\"latest/\">latest/</a></pre><hr></body></html>";
    assert_eq!(file_names(html).unwrap(), vec!["20240501/".to_string(), "latest/".to_string()]);
    assert!(matches!(file_names("no html"), Err(IndexError::Parse(_))));
    assert!(matches!(
        file_names("<html><head></head></html>"),
        Err(IndexError::Missing(m)) if m.name == "body"
    ));
    assert!(matches!(
        file_names("<html><body><p>x</p></body></html>"),
        Err(IndexError::Missing(m)) if m.name == "pre"
    ));
    assert!(matches!(
        file_names("<html><body><pre><a>x</a></pre></body></html>"),
        Err(IndexError::Missing(m)) if m.name == "href"
    ));
}

#[test]
fn numbers_and_index_lines() {
    assert_eq!(parse_number("0", 10), Some(0));
    assert_eq!(parse_number("+17", 100), Some(17));
    assert_eq!(parse_number("007", 100), Some(7));
    assert_eq!(parse_number("4294967295", u32::MAX as u64), Some(4294967295));
    assert_eq!(parse_number("4294967296", u32::MAX as u64), None);
    assert_eq!(parse_number("18446744073709551615", u64::MAX), Some(u64::MAX));
    assert_eq!(parse_number("18446744073709551616", u64::MAX), None);
    assert_eq!(parse_number("", 10), None);
    assert_eq!(parse_number("+", 10), None);
    assert_eq!(parse_number("-1", 10), None);
    assert_eq!(parse_number("1 ", 10), None);
    assert_eq!(parse_number("12a", 1000), None);

    let entry = parse_index_line("599:12:Anarchism: a history").unwrap();
    assert_eq!(entry.byte_offset, 599);
    assert_eq!(entry.id, 12);
    assert_eq!(entry.title, "Anarchism: a history");
    assert!(parse_index_line("599:12").is_none());
    assert!(parse_index_line("599").is_none());
    assert!(parse_index_line("x:12:t").is_none());
    assert!(parse_index_line("1:99999999999:t").is_none());
    assert_eq!(parse_index_line("1:2:").unwrap().title, "");
}

#[test]
fn parts_of_the_dump_and_their_ranges() {
    let url = "enwiki/20240501/enwiki-20240501-pages-articles-multistream1.xml-p17p41242.bz2";
    assert_eq!(
        index_url(url),
        "enwiki/20240501/enwiki-20240501-pages-articles-multistream-index1.txt-p17p41242.bz2"
    );
    assert_eq!(shard_range(url), Some((17, 41242)));
    assert_eq!(shard_range("a.xml-p40p50.bz2"), Some((40, 50)));
    assert_eq!(shard_range("a.xml-p40p50"), None);
    assert_eq!(shard_range("a.xml-p40.bz2"), None);
    assert_eq!(shard_range("a.xml-p21p22p23.bz2"), None);
    assert_eq!(shard_range("a.xml-p21p99999999999.bz2"), None);
    assert_eq!(shard_range("nothing.bz2"), None);
    assert!(covers((1, 41242), 1));
    assert!(covers((1, 41242), 41242));
    assert!(!covers((1, 41242), 41243));
    assert!(!covers((5, 9), 4));

    let mut cursor = StreamCursor::new();
    assert!(cursor.advance(599));
    assert!(!cursor.advance(599));
    assert!(cursor.advance(700));
    assert!(!cursor.advance(650));
    assert_eq!(cursor.latest_offset, 700);
    assert!(!StreamCursor::new().advance(0));
    assert_eq!(pages_to_read(10, 100), 10);
    assert_eq!(pages_to_read(u64::MAX, 100), 100);
}

#[test]
fn articles_are_counted() {
    let lines = vec!["1:2:a".to_string(), "".to_string(), "3:4:b".to_string()];
    assert_eq!(count_articles(&lines), 2);
    let mut count = ArticleCount::new();
    assert_eq!(count.total(), 0);
    count.articles_per_stream.push(("one".to_string(), 5));
    count.articles_per_stream.push(("two".to_string(), 7));
    assert_eq!(count.total(), 12);
    count.articles_per_stream.push(("three".to_string(), u64::MAX));
    assert_eq!(count.total(), u64::MAX);
}

#[test]
fn texts_are_searched_and_replaced() {
    assert!(contains_text("multistream-index", "index"));
    assert!(!contains_text("multistream", "index"));
    assert!(contains_text("abc", ""));
    assert_eq!(replace_all("a.xml.xml", ".xml", ".txt"), "a.txt.txt");
    assert_eq!(replace_all("aaa", "aa", "b"), "ba");
    assert_eq!(replace_all("abc", "", "x"), "abc");
    assert_eq!(replace_all("abc", "abcd", "x"), "abc");
    assert_eq!(decimal_text(0), "0");
    assert_eq!(decimal_text(907), "907");
    assert_eq!(decimal_text(u64::MAX), "18446744073709551615");
}

#[test]
fn packed_title_map() {
    let mut map = TitleMap::new();
    map.insert(258, "Banana".to_string());
    map.insert(1, "École".to_string());
    assert_eq!(map.get_title(1), Some("École"));
    assert_eq!(map.get_id("banana"), Some(258));
    assert_eq!(map.get_id("pear"), None);
    // A title that is paired anew leaves its old identifier.
    map.insert(2, "Banana".to_string());
    assert_eq!(map.get_title(258), None);
    assert_eq!(map.get_id("Banana"), Some(2));

    let bytes = map.serialize();
    let mut expected = vec![1, 0, 0, 0, 6, 0, 0, 0];
    expected.extend_from_slice("École".as_bytes());
    expected.extend_from_slice(&[2, 0, 0, 0, 6, 0, 0, 0]);
    expected.extend_from_slice(b"Banana");
    assert_eq!(bytes, expected);

    let back = TitleMap::deserialize(&bytes).unwrap();
    assert_eq!(back.get_title(1), Some("École"));
    assert_eq!(back.get_title(2), Some("Banana"));
    assert_eq!(back.serialize(), bytes);
    // Fewer than four bytes at the end are passed over.
    let mut padded = bytes.clone();
    padded.extend_from_slice(&[9, 9]);
    assert_eq!(TitleMap::deserialize(&padded).unwrap().serialize(), bytes);
    assert!(TitleMap::deserialize(&bytes[..bytes.len() - 1]).is_none());
    assert!(TitleMap::deserialize(&[1, 0, 0, 0, 1, 0, 0, 0, 0xff]).is_none());
    assert!(TitleMap::deserialize(&[1, 0, 0, 0, 1]).is_none());
    assert_eq!(TitleMap::deserialize(&[]).unwrap().serialize(), Vec::<u8>::new());
}

#[test]
fn the_first_covering_part_is_chosen() {
    let ranges = vec![(1u32, 100u32), (101, 200), (150, 300), (500, 500)];
    assert_eq!(covering_shard(&ranges, 1), Some(0));
    assert_eq!(covering_shard(&ranges, 100), Some(0));
    assert_eq!(covering_shard(&ranges, 101), Some(1));
    assert_eq!(covering_shard(&ranges, 160), Some(1));
    assert_eq!(covering_shard(&ranges, 201), Some(2));
    assert_eq!(covering_shard(&ranges, 500), Some(3));
    assert_eq!(covering_shard(&ranges, 0), None);
    assert_eq!(covering_shard(&ranges, 400), None);
    assert_eq!(covering_shard(&Vec::new(), 7), None);
}

#[test]
fn the_stream_ends_at_the_cutoff() {
    assert!(!cutoff_reached(0, 1));
    assert!(!cutoff_reached(99, 100));
    assert!(cutoff_reached(100, 100));
    assert!(cutoff_reached(101, 100));
    assert!(cutoff_reached(0, 0));
    assert!(!cutoff_reached(u64::MAX - 1, u64::MAX));
}

#[test]
fn results_are_kept_or_computed() {
    assert_eq!(cache_path("article_count", "json", false), "data/article_count.json");
    assert_eq!(cache_path("id_to_title", "bin", true), "data/id_to_title.bin.gz");
    assert!(matches!(memoise(Some(5), || 6), Outcome::Cached(5)));
    assert!(matches!(memoise(None, || 6), Outcome::Fresh(6)));
    let mut map = TitleMap::new();
    map.insert(3, "C".to_string());
    let bytes = map.serialize();
    let fresh = || -> Result<TitleMap, String> { Ok(TitleMap::new()) };
    match memoise_bytes(Some(&bytes[..]), fresh) {
        Ok(Some(Outcome::Cached(read))) => assert_eq!(read.get_title(3), Some("C")),
        _ => panic!("the bytes are a packed map"),
    }
    assert!(matches!(memoise_bytes(Some(&[0u8; 5][..]), fresh), Ok(None)));
    assert!(matches!(memoise_bytes(None, fresh), Ok(Some(Outcome::Fresh(_)))));
    let failing = || -> Result<TitleMap, String> { Err("no pages".to_string()) };
    assert!(matches!(memoise_bytes(None, failing), Err(e) if e == "no pages"));
    // A result that is kept is not computed again.
    assert!(matches!(memoise_bytes(Some(&bytes[..]), failing), Ok(Some(Outcome::Cached(_)))));

    let mut hook = ReadProgressHook::new(Vec::<u8>::new(), 10);
    hook.advance(5);
    hook.inner().push(1);
    assert_eq!(hook.progress(), 15);
    hook.advance(usize::MAX);
    assert_eq!(hook.progress(), usize::MAX);
}
