use wiki_scraper::titles::{
    canonical_form, canonicalise_wikilink, generate_title_map, id_short_key, is_interwiki_link,
    new_title_map, split_namespace, title_short_key, try_canonicalise_wikilink,
};

fn canon(s: &str) -> String {
    try_canonicalise_wikilink(s).unwrap()
}

#[test]
fn canonicalisation_scenario() {
    assert_eq!(canon("help:foo_bar"), "Help:Foo bar");
    assert_eq!(canon("notanamespace:foo"), "Notanamespace:foo");
    assert_eq!(canon("%C3%A9cole"), "École");
    assert_eq!(canonicalise_wikilink("help:foo_bar"), "Help:Foo bar");
}

#[test]
fn canonicalisation_recognises_every_namespace() {
    let names = [
        "Main", "Article", "User", "Wikipedia", "File", "MediaWiki", "Template", "Help",
        "Category", "Portal", "Draft", "TimedText", "Module", "Special", "Media",
    ];
    for name in names {
        assert_eq!(canon(&format!("{}:x", name.to_lowercase())), format!("{name}:X"));
        assert_eq!(canon(&format!("{}:x", name.to_uppercase())), format!("{name}:X"));
        assert_eq!(canon(&format!(" {name} :x")), format!("{name}:X"));
    }
}

#[test]
fn canonicalisation_decodes_and_spaces_out() {
    assert_eq!(canon("foo"), "Foo");
    assert_eq!(canon("a&amp;b"), "A&b");
    assert_eq!(canon("a&lt;b&gt;"), "A<b>");
    assert_eq!(canon("foo__bar"), "Foo bar");
    assert_eq!(canon("foo _ bar"), "Foo bar");
    assert_eq!(canon("a  b   c"), "A b c");
    assert_eq!(canon("foo%20bar"), "Foo bar");
    assert_eq!(canon("foo%2"), "Foo%2");
    assert_eq!(canon("foo%zz"), "Foo%zz");
    assert_eq!(canon("%41%6a"), "Aj");
    assert_eq!(canon("ßa"), "SSa");
    assert_eq!(canon("help:%C3%A9cole_x"), "Help:École x");
    assert_eq!(canon("x:help:y"), "X:help:y");
}

#[test]
fn canonicalisation_is_idempotent_on_plain_titles() {
    for s in [
        "help:foo_bar", "notanamespace:foo", "%C3%A9cole", "Category:Living  people",
        "albert_Einstein", "portal: arts", "a", " lead", "x_y_z",
    ] {
        let once = canon(s);
        assert_eq!(canon(&once), once);
    }
}

#[test]
fn canonicalisation_is_not_idempotent_on_nested_escapes() {
    assert_eq!(canon("%2541"), "%41");
    assert_eq!(canon("%41"), "A");
    assert_eq!(canon("help%3Afoo"), "Help:foo");
    assert_eq!(canon("Help:foo"), "Help:Foo");
}

#[test]
fn links_without_canonical_form() {
    assert_eq!(try_canonicalise_wikilink("%FF"), None);
    assert_eq!(try_canonicalise_wikilink("%C3"), None);
    assert_eq!(try_canonicalise_wikilink("ok"), Some("Ok".to_string()));
}

#[test]
fn empty_links_stay_empty() {
    assert_eq!(canonicalise_wikilink(""), "");
    assert_eq!(canonicalise_wikilink("help:"), "Help:");
    assert_eq!(canonicalise_wikilink(" HELP :"), "Help:");
    assert_eq!(canonicalise_wikilink(":"), ":");
    // White space round the namespace is taken off, as Unicode defines it.
    assert_eq!(canonicalise_wikilink("\u{a0}\thelp\u{3000}\n:x"), "Help:X");
    assert_eq!(canonicalise_wikilink("he lp:x"), "He lp:x");
    assert_eq!(try_canonicalise_wikilink(""), Some(String::new()));
    assert_eq!(try_canonicalise_wikilink("help:"), Some("Help:".to_string()));
    assert_eq!(canonical_form(None, ""), "");
    assert_eq!(canonical_form(Some("File".to_string()), ""), "File:");
}

#[test]
fn canonical_form_of_decoded_parts() {
    assert_eq!(canonical_form(None, "foo_bar"), "Foo bar");
    assert_eq!(canonical_form(Some("Help".to_string()), "foo  bar"), "Help:Foo bar");
    assert_eq!(canonical_form(None, "_x"), " x");
}

#[test]
fn short_keys_of_identifiers() {
    assert_eq!(id_short_key(&0), 0);
    assert_eq!(id_short_key(&255), 255);
    assert_eq!(id_short_key(&256), 0);
    assert_eq!(id_short_key(&513), 1);
    assert_eq!(id_short_key(&u32::MAX), 255);
    assert_eq!(id_short_key(&0x1234_56ab), 0xab);
}

#[test]
fn short_keys_of_titles() {
    assert_eq!(title_short_key("Apple"), "AP");
    assert_eq!(title_short_key("apple"), "AP");
    assert_eq!(title_short_key("Help:foo bar"), "FO");
    assert_eq!(title_short_key("a"), "A");
    assert_eq!(title_short_key("1a2b3c"), "AB");
    assert_eq!(title_short_key("123"), "other");
    assert_eq!(title_short_key(""), "other");
    assert_eq!(title_short_key("École"), "CO");
    assert_eq!(title_short_key("x:"), "other");
    assert_eq!(title_short_key("a:b:c"), "BC");
}

#[test]
fn namespaces_are_split_off_canonical_titles() {
    assert_eq!(
        split_namespace("Category:Living people"),
        (Some("Category".to_string()), "Living people".to_string())
    );
    assert_eq!(split_namespace("Apple"), (None, "Apple".to_string()));
    assert_eq!(split_namespace("Odd:Apple"), (None, "Odd:Apple".to_string()));
    assert_eq!(split_namespace("category:x"), (None, "category:x".to_string()));
    assert_eq!(split_namespace("Help:a:b"), (Some("Help".to_string()), "a:b".to_string()));
}

#[test]
fn interwiki_links_start_with_a_known_prefix() {
    let prefixes = vec!["fr".to_string(), "de".to_string(), "wikt".to_string()];
    assert!(is_interwiki_link("fr:Pomme", &prefixes));
    assert!(is_interwiki_link("wikt:apple", &prefixes));
    assert!(!is_interwiki_link("fr", &prefixes));
    assert!(!is_interwiki_link("french:Pomme", &prefixes));
    assert!(!is_interwiki_link("Apple", &prefixes));
    assert!(!is_interwiki_link("fr:Pomme", &Vec::new()));
}

#[test]
fn title_map_goes_both_ways() {
    let mut map = new_title_map();
    assert!(map.insert(12, "apple"));
    assert!(map.insert(300, "help:contents"));
    assert!(map.insert(7, "%C3%A9cole"));
    assert!(!map.insert(9, "%FF"));
    assert!(map.insert(10, ""));
    for (id, title) in [(12u32, "Apple"), (300, "Help:Contents"), (7, "École")] {
        assert_eq!(map.get_title(id), Some(title.to_string()));
        assert_eq!(map.get_id(title), Some(id));
        assert_eq!(map.get_id(&map.get_title(id).unwrap()), Some(id));
        assert_eq!(map.get_title(map.get_id(title).unwrap()), Some(title.to_string()));
    }
    // Titles are canonicalised before they are looked up.
    assert_eq!(map.get_id("apple"), Some(12));
    assert_eq!(map.get_id("HELP:contents"), Some(300));
    assert_eq!(map.get_id("pear"), None);
    assert_eq!(map.get_id("%FF"), None);
    assert_eq!(map.get_title(9), None);
    assert_eq!(map.get_id(""), Some(10));
    assert_eq!(map.get_title(10), Some(String::new()));
}

#[test]
fn title_map_is_written_and_read() {
    let pages = vec![
        (1u32, "apple".to_string()),
        (2, "Banana".to_string()),
        (258, "category:fruit".to_string()),
        (3, "%FF".to_string()),
    ];
    let (map, skipped) = generate_title_map(&pages);
    assert_eq!(skipped, 1);
    assert!(map.id_to_title().is_fully_loaded());
    let (by_id, by_title) = map.serialise().unwrap();
    assert_eq!(by_id.manifest, "[1,2]");
    assert_eq!(by_id.partitions[1].lines, vec!["[2,\"Banana\"]", "[258,\"Category:Fruit\"]"]);
    assert_eq!(by_title.manifest, "[\"AP\",\"BA\",\"FR\"]");

    let mut fresh = new_title_map();
    assert!(matches!(fresh.deserialise(Some(&by_id), Some(&by_title), true), Ok(true)));
    assert_eq!(fresh.get_id("Category:Fruit"), Some(258));
    assert_eq!(fresh.get_title(1), Some("Apple".to_string()));
    let mut other = new_title_map();
    assert!(matches!(other.deserialise(None, Some(&by_title), true), Ok(false)));
    assert_eq!(other.get_id("Apple"), None);
}
