use wiki_scraper::commands::links::{
    first_occurrences, follow, generate_outgoing_links, page_links, sort_ids,
};
use wiki_scraper::parse::wikitext::{find_links, Wikilink};
use wiki_scraper::titles::new_title_map;

#[test]
fn wikilink_scan_scenario() {
    let links = find_links("see [[A|a]] and [[B#x]]");
    assert_eq!(links.len(), 2);
    assert_eq!(links[0].target, "A");
    assert_eq!(links[0].text, "a");
    assert_eq!(links[1].target, "B#x");
    assert_eq!(links[1].text, "B#x");
    assert_eq!(links[0].target_root(), "A");
    assert_eq!(links[1].target_root(), "B");
    assert_eq!(links[1].try_target_root(), Some("B".to_string()));
}

#[test]
fn scan_handles_odd_brackets() {
    assert_eq!(find_links("").len(), 0);
    assert_eq!(find_links("[[").len(), 0);
    assert_eq!(find_links("[[a").len(), 0);
    assert_eq!(find_links("]] [[a]]").len(), 1);
    let links = find_links("[[a|b|c]]");
    assert_eq!((links[0].target.as_str(), links[0].text.as_str()), ("a", "b|c"));
    let links = find_links("[[]]");
    assert_eq!((links[0].target.as_str(), links[0].text.as_str()), ("", ""));
    // Three brackets: the link opens at the first two.
    let links = find_links("[[[a]]");
    assert_eq!(links.len(), 1);
    assert_eq!(links[0].target, "[a");
    // A link within a link opens a link of its own.
    let links = find_links("[[File:x.png|see [[inner]] here]] and [[z]]");
    let targets: Vec<&str> = links.iter().map(|l| l.target.as_str()).collect();
    assert_eq!(targets, vec!["File:x.png", "inner", "z"]);
    assert_eq!(links[0].text, "see [[inner");
    // An opening without a closing behind it is no link.
    let links = find_links("[[a]] [[b");
    assert_eq!(links.len(), 1);
}

#[test]
fn links_are_shown_and_owned() {
    let link = Wikilink { target: "A".to_string(), text: "the a".to_string() };
    assert_eq!(link.to_text(), "[[A|the a]]");
    let owned = link.to_owned();
    assert_eq!(owned.target, "A");
    assert_eq!(owned.text, "the a");
    let anchor = Wikilink { target: "#top".to_string(), text: "".to_string() };
    assert_eq!(anchor.try_target_root(), Some(String::new()));
    assert_eq!(anchor.target_root(), "");
    let odd = Wikilink { target: "%FF#top".to_string(), text: "".to_string() };
    assert_eq!(odd.try_target_root(), None);
}

#[test]
fn ids_are_kept_where_they_first_occur() {
    assert_eq!(first_occurrences(vec![3, 1, 3, 2, 1, 3]), vec![3, 1, 2]);
    assert_eq!(first_occurrences(vec![10, 20, 30, 20, 40, 10, 50]), vec![10, 20, 30, 40, 50]);
    assert_eq!(first_occurrences(vec![]), Vec::<u32>::new());
}

#[test]
fn ids_are_sorted_and_kept_once() {
    assert_eq!(sort_ids(&vec![5, 1, 4, 1, 5, 9, 2, 6]), vec![1, 2, 4, 5, 6, 9]);
    assert_eq!(sort_ids(&vec![]), Vec::<u32>::new());
    assert_eq!(sort_ids(&vec![u32::MAX, 0]), vec![0, u32::MAX]);
}

#[test]
fn page_links_resolve_filter_and_count() {
    let mut titles = new_title_map();
    assert!(titles.insert(1, "Apple"));
    assert!(titles.insert(2, "Banana"));
    assert!(titles.insert(3, "Category:Fruit"));
    assert!(titles.insert(4, "Help:Contents"));
    assert!(titles.insert(5, "Fr:Pomme"));
    // Prefixes are given as they stand in canonical titles.
    let interwiki = vec!["Fr".to_string()];
    let text = "[[banana]] [[apple|an apple]] [[Banana#taste]] [[category:fruit]] \
                [[Help:Contents]] [[fr:Pomme]] [[Cherry]] [[]] [[apple]]";
    let (ids, red) = page_links(text, &titles, &interwiki);
    assert_eq!(ids, vec![1, 2, 3]);
    // `Cherry` has no page, and neither has the empty link.
    assert_eq!(red, 2);

    let link = Wikilink { target: "apple#core".to_string(), text: "x".to_string() };
    assert_eq!(follow(&link, &titles, &interwiki), (Some(1), false));
    let link = Wikilink { target: "Help:Contents".to_string(), text: "x".to_string() };
    assert_eq!(follow(&link, &titles, &interwiki), (None, false));
    let link = Wikilink { target: "Cherry".to_string(), text: "x".to_string() };
    assert_eq!(follow(&link, &titles, &interwiki), (None, true));
}

#[test]
fn outgoing_links_are_built_from_pages() {
    let mut titles = new_title_map();
    assert!(titles.insert(1, "Apple"));
    assert!(titles.insert(2, "Banana"));
    assert!(titles.insert(3, "Cherry"));
    let pages = vec![
        (1u32, "[[banana]] and [[cherry]] and [[banana]]".to_string()),
        (2, "no links".to_string()),
        (3, "[[apple]] [[durian]]".to_string()),
    ];
    let (map, blue, red) = generate_outgoing_links(&pages, &titles, &Vec::new());
    assert!(map.is_fully_loaded());
    assert_eq!(map.get(&1), Some(&vec![2, 3]));
    assert_eq!(map.get(&2), Some(&vec![]));
    assert_eq!(map.get(&3), Some(&vec![1]));
    assert_eq!(blue, 3);
    assert_eq!(red, 1);
    assert_eq!(map.prefix(), "outgoing_links");
}
