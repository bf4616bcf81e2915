use wiki_scraper::commands::download::{trim_leading_slashes, trim_trailing_slashes};
use wiki_scraper::keys::{relation_of_bytes, Key, Relation};
use wiki_scraper::page::parse_number;
use wiki_scraper::parse::xml::{class_holds, white, CharClass};
use wiki_scraper::partition::{find_position, Partition};
use wiki_scraper::text::{
    ascii_alphabetic, chars_of, contains_text, find_char, find_char_in, find_text, push_text,
    replace_all, same_chars, same_text, stands_at, string_of, to_ascii_upper,
};

fn all_chars() -> impl Iterator<Item = char> {
    (0u32..=0x10ffff).filter_map(char::from_u32)
}

fn order(r: Relation) -> std::cmp::Ordering {
    match r {
        Relation::Before => std::cmp::Ordering::Less,
        Relation::Same => std::cmp::Ordering::Equal,
        Relation::After => std::cmp::Ordering::Greater,
    }
}

#[test]
fn character_classes_agree_with_std() {
    for c in all_chars() {
        assert_eq!(white(c), c.is_whitespace(), "{c:?}");
        assert_eq!(class_holds(CharClass::White, c), c.is_whitespace());
        assert_eq!(class_holds(CharClass::Alphanumeric, c), c.is_ascii_alphanumeric());
        assert_eq!(class_holds(CharClass::NameChar, c), !c.is_whitespace() && c != '=');
        assert_eq!(class_holds(CharClass::NotOpen, c), c != '<');
        assert_eq!(class_holds(CharClass::NotQuote, c), c != '"');
        assert_eq!(ascii_alphabetic(c), c.is_ascii_alphabetic());
        assert_eq!(to_ascii_upper(c), c.to_ascii_uppercase());
    }
}

#[test]
fn keys_are_ordered_as_std_orders_them() {
    let words = [
        "", "a", "A", "ab", "b", "École", "Ecole", "z", "é", "\u{10000}", "\u{ffff}", "aa", "a b",
        "Zebra", "zebra", "日本語", "日本", "~", "\u{7f}", "\u{80}",
    ];
    for a in words {
        for b in words {
            let (x, y) = (a.to_string(), b.to_string());
            assert_eq!(order(x.relation(&y)), x.cmp(&y), "{a:?} {b:?}");
            assert_eq!(order(relation_of_bytes(a.as_bytes(), b.as_bytes())), a.cmp(b));
        }
        assert_eq!(a.to_string().duplicate(), a);
    }
    for a in [0u32, 1, 255, 256, u32::MAX] {
        for b in [0u32, 1, 255, 256, u32::MAX] {
            assert_eq!(order(a.relation(&b)), a.cmp(&b));
            assert_eq!(order((a as u64).relation(&(b as u64))), a.cmp(&b));
            assert_eq!(order((a as u8).relation(&(b as u8))), (a as u8).cmp(&(b as u8)));
        }
        assert_eq!(a.duplicate(), a);
    }
}

#[test]
fn texts_are_taken_apart_and_put_together() {
    let chars = chars_of("héllo: wörld");
    assert_eq!(chars.len(), 12);
    assert_eq!(string_of(&chars, 0, 5), "héllo");
    assert_eq!(string_of(&chars, 7, 12), "wörld");
    assert_eq!(string_of(&chars, 3, 3), "");
    assert_eq!(find_char(&chars, 0, ':'), Some(5));
    assert_eq!(find_char(&chars, 6, ':'), None);
    assert_eq!(find_char(&chars, 2, 'l'), Some(2));
    assert_eq!(find_char_in(&chars, 0, 5, ':'), None);
    assert_eq!(find_char_in(&chars, 0, 6, ':'), Some(5));
    assert!(same_chars(&chars, 7, 12, "wörld"));
    assert!(!same_chars(&chars, 7, 12, "world"));
    assert!(!same_chars(&chars, 7, 11, "wörld"));
    assert!(same_text("a", "a") && !same_text("a", "b") && !same_text("a", "aa"));
    let mut s = "ab".to_string();
    push_text(&mut s, "çd");
    assert_eq!(s, "abçd");
    let pattern = chars_of("ll");
    assert!(stands_at(&chars, &pattern, 2));
    assert!(!stands_at(&chars, &pattern, 3));
    assert!(!stands_at(&chars, &pattern, 11));
    assert_eq!(find_text(&chars, &pattern, 0), Some(2));
    assert_eq!(find_text(&chars, &pattern, 3), None);
    assert_eq!(find_text(&chars, &Vec::new(), 12), Some(12));
}

#[test]
fn searching_and_replacing_agree_with_std() {
    let texts = ["", "a", "aaa", "abcabc", "a.xml.xml", "multistream", "xx-index-xx", "ééé"];
    let patterns = ["", "a", "aa", "abc", ".xml", "index", "é", "zz"];
    for text in texts {
        for pattern in patterns {
            assert_eq!(contains_text(text, pattern), text.contains(pattern));
            if !pattern.is_empty() {
                assert_eq!(replace_all(text, pattern, "<>"), text.replace(pattern, "<>"));
                assert_eq!(replace_all(text, pattern, ""), text.replace(pattern, ""));
            }
        }
    }
    for text in ["", "/", "//a//", "a/", "/a", "a//b", "///"] {
        assert_eq!(trim_leading_slashes(text), text.trim_start_matches('/'));
        assert_eq!(trim_trailing_slashes(text), text.trim_end_matches('/'));
    }
}

#[test]
fn numbers_are_read_as_std_reads_them() {
    let texts = [
        "0", "1", "+1", "-1", "", "+", "00012", "4294967295", "4294967296", "99999999999999999999",
        "12 ", " 12", "1_000", "0x10", "１２", "12.0", "++1",
    ];
    for text in texts {
        assert_eq!(parse_number(text, u32::MAX as u64), text.parse::<u32>().ok().map(u64::from));
        assert_eq!(parse_number(text, u64::MAX), text.parse::<u64>().ok());
    }
}

#[test]
fn partitions_keep_their_keys_sorted() {
    let mut part: Partition<String, u32> = Partition::new();
    assert_eq!(part.len(), 0);
    for (i, word) in ["pear", "apple", "fig", "apple", "zucchini", "banana"].iter().enumerate() {
        let before = part.insert(word.to_string(), i as u32);
        assert_eq!(before.is_some(), *word == "apple" && i == 3);
    }
    assert_eq!(part.len(), 5);
    let keys: Vec<&str> = (0..part.len()).map(|i| part.key_at(i).as_str()).collect();
    assert_eq!(keys, vec!["apple", "banana", "fig", "pear", "zucchini"]);
    assert_eq!(part.get(&"apple".to_string()), Some(&3));
    assert_eq!(part.get(&"cherry".to_string()), None);
    assert_eq!(part.position(&"fig".to_string()), (true, 2));
    assert_eq!(part.position(&"grape".to_string()), (false, 3));
    assert_eq!(part.replace_at(2, 40), 2);
    assert_eq!(*part.value_at(2), 40);
    part.mutate_with_default("kiwi".to_string(), |v: u32| v + 7);
    part.mutate_with_default("kiwi".to_string(), |v: u32| v + 1);
    assert_eq!(part.get(&"kiwi".to_string()), Some(&8));
    let sorted = vec![1u32, 3, 5, 7];
    assert_eq!(find_position(&sorted, &5), (true, 2));
    assert_eq!(find_position(&sorted, &0), (false, 0));
    assert_eq!(find_position(&sorted, &8), (false, 4));
    assert_eq!(find_position(&Vec::<u32>::new(), &8), (false, 0));
}
