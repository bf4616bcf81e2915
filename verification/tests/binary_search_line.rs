use wiki_scraper::binary_search_line::{
    binary_search_line_in_file, find_line_end, next_line_starting_at, Probe, SearchError, Window,
};

fn leading_integer(line: &str) -> Option<u32> {
    line.split(' ').next().and_then(|word| word.trim().parse::<u32>().ok())
}

fn whole_line(line: &str) -> Option<String> {
    Some(line.trim_end().to_string())
}

#[test]
fn sorted_line_file_scenario() {
    let file = b"1 a\n3 c\n5 e\n7 g\n".to_vec();
    let found = binary_search_line_in_file(&file, leading_integer, &5u32).unwrap();
    assert_eq!(found, Some("5 e\n".to_string()));
    let found = binary_search_line_in_file(&file, leading_integer, &4u32).unwrap();
    assert_eq!(found, None);
    let found = binary_search_line_in_file(&file, leading_integer, &1u32).unwrap();
    assert_eq!(found, Some("1 a\n".to_string()));
}

#[test]
fn search_finds_every_line_and_nothing_else() {
    let mut text = String::new();
    for key in (10u32..400).step_by(3) {
        text.push_str(&format!("{key} value of {key}\n"));
    }
    let file = text.into_bytes();
    for key in 0u32..410 {
        let found = binary_search_line_in_file(&file, leading_integer, &key).unwrap();
        if key >= 10 && key < 400 && (key - 10) % 3 == 0 {
            assert_eq!(found, Some(format!("{key} value of {key}\n")));
        } else {
            assert_eq!(found, None);
        }
    }
}

#[test]
fn search_reads_a_last_line_without_line_break() {
    let file = b"10 a\n20 b\n30 c".to_vec();
    let found = binary_search_line_in_file(&file, leading_integer, &30u32).unwrap();
    assert_eq!(found, Some("30 c".to_string()));
    let found = binary_search_line_in_file(&file, leading_integer, &10u32).unwrap();
    assert_eq!(found, Some("10 a\n".to_string()));
}

#[test]
fn search_in_an_empty_file_finds_nothing() {
    let file: Vec<u8> = Vec::new();
    let found = binary_search_line_in_file(&file, leading_integer, &1u32).unwrap();
    assert_eq!(found, None);
}

#[test]
fn search_with_string_keys() {
    let file = b"apple\nbanana\ncherry\ndate\n".to_vec();
    let found = binary_search_line_in_file(&file, whole_line, &"cherry".to_string()).unwrap();
    assert_eq!(found, Some("cherry\n".to_string()));
    let found = binary_search_line_in_file(&file, whole_line, &"coconut".to_string()).unwrap();
    assert_eq!(found, None);
}

#[test]
fn search_finds_lines_of_one_character() {
    let file = b"a\nb\n".to_vec();
    let found = binary_search_line_in_file(&file, whole_line, &"b".to_string()).unwrap();
    assert_eq!(found, Some("b\n".to_string()));
    let found = binary_search_line_in_file(&file, whole_line, &"a".to_string()).unwrap();
    assert_eq!(found, Some("a\n".to_string()));
    let file = b"1\n3\n".to_vec();
    for (key, line) in [(1u32, Some("1\n")), (2, None), (3, Some("3\n")), (4, None)] {
        let found = binary_search_line_in_file(&file, leading_integer, &key).unwrap();
        assert_eq!(found, line.map(|l| l.to_string()));
    }
    let file = b"7".to_vec();
    let found = binary_search_line_in_file(&file, leading_integer, &7u32).unwrap();
    assert_eq!(found, Some("7".to_string()));
}

#[test]
fn search_returns_the_first_of_several_lines() {
    let file = b"1 a\n1 b\n2 c\n2 d\n2 e\n9 f\n".to_vec();
    let found = binary_search_line_in_file(&file, leading_integer, &1u32).unwrap();
    assert_eq!(found, Some("1 a\n".to_string()));
    let found = binary_search_line_in_file(&file, leading_integer, &2u32).unwrap();
    assert_eq!(found, Some("2 c\n".to_string()));
    let found = binary_search_line_in_file(&file, leading_integer, &9u32).unwrap();
    assert_eq!(found, Some("9 f\n".to_string()));
}

#[test]
fn search_passes_over_empty_lines() {
    let file = b"\n\n1 a\n\n3 c\n\n\n\n5 e\n\n".to_vec();
    for (key, line) in [
        (0u32, None),
        (1, Some("1 a\n")),
        (2, None),
        (3, Some("3 c\n")),
        (4, None),
        (5, Some("5 e\n")),
        (6, None),
    ] {
        let found = binary_search_line_in_file(&file, leading_integer, &key).unwrap();
        assert_eq!(found, line.map(|l| l.to_string()));
    }
    let file = b"\n\n\n".to_vec();
    let found = binary_search_line_in_file(&file, leading_integer, &1u32).unwrap();
    assert_eq!(found, None);
}

#[test]
fn search_agrees_with_a_scan_of_every_small_file() {
    // Every file of up to five lines over the keys 1 to 3, each line with a
    // mark of its own, empty or not, with or without a last line break.
    for shape in 0u32..(4u32.pow(5)) {
        for lines in 0usize..=5 {
            let mut keys: Vec<u32> = (0..lines).map(|i| (shape >> (2 * i)) & 3).collect();
            let mut last = 0;
            for k in keys.iter_mut() {
                if *k != 0 {
                    if *k < last {
                        *k = last;
                    }
                    last = *k;
                }
            }
            let texts: Vec<String> = keys
                .iter()
                .enumerate()
                .map(|(i, k)| if *k == 0 { String::new() } else { format!("{k} {i}") })
                .collect();
            for closing in [true, false] {
                let mut text = texts.join("\n");
                if closing {
                    text.push('\n');
                }
                let file = text.clone().into_bytes();
                for key in 0u32..5 {
                    let expected = text
                        .split_inclusive('\n')
                        .find(|l| leading_integer(l) == Some(key) && !l.trim().is_empty())
                        .map(|l| l.to_string());
                    let found = binary_search_line_in_file(&file, leading_integer, &key).unwrap();
                    assert_eq!(found, expected, "file {text:?}, key {key}");
                }
            }
        }
    }
}

#[test]
fn search_reports_lines_it_cannot_read() {
    let file = vec![b'1', b' ', 0xff, b'\n'];
    let r = binary_search_line_in_file(&file, leading_integer, &1u32);
    assert!(matches!(r, Err(SearchError::Encoding)));
    let file = b"x y\n".to_vec();
    let r = binary_search_line_in_file(&file, leading_integer, &1u32);
    assert!(matches!(r, Err(SearchError::NoKey)));
}

#[test]
fn lines_are_read_from_probe_offsets() {
    let file = b"1 a\n3 c\n5 e\n".to_vec();
    assert_eq!(find_line_end(&file, 0), 4);
    assert_eq!(find_line_end(&file, 3), 4);
    assert_eq!(find_line_end(&file, 4), 8);
    assert_eq!(find_line_end(&file, 12), 12);
    assert_eq!(next_line_starting_at(&file, 0), (0, 4));
    assert_eq!(next_line_starting_at(&file, 1), (4, 8));
    // A line that starts at the offset is read.
    assert_eq!(next_line_starting_at(&file, 4), (4, 8));
    assert_eq!(next_line_starting_at(&file, 5), (8, 12));
    assert_eq!(next_line_starting_at(&file, 8), (8, 12));
    assert_eq!(next_line_starting_at(&file, 9), (12, 12));
    assert_eq!(next_line_starting_at(&file, 12), (12, 12));
    // Empty lines are passed over.
    let file = b"\n\nab\n\ncd".to_vec();
    assert_eq!(next_line_starting_at(&file, 0), (2, 5));
    assert_eq!(next_line_starting_at(&file, 2), (2, 5));
    assert_eq!(next_line_starting_at(&file, 3), (6, 8));
    assert_eq!(next_line_starting_at(&file, 7), (8, 8));
}

#[test]
fn window_narrows_as_described() {
    let mut w = Window::new(100);
    assert!(!w.is_closed());
    assert_eq!(w.probe(), 50);
    w.step(Probe::KeyBefore);
    assert_eq!((w.lo, w.hi), (0, 50));
    assert_eq!(w.probe(), 25);
    w.step(Probe::KeyAfter);
    assert_eq!((w.lo, w.hi), (26, 50));
    assert_eq!(w.probe(), 38);
    w.step(Probe::NoLine);
    assert_eq!((w.lo, w.hi), (26, 38));
    assert_eq!(w.probe(), 32);
    w.step(Probe::KeyFound);
    assert_eq!((w.lo, w.hi), (26, 32));

    let mut last = Window { lo: 7, hi: 8 };
    assert_eq!(last.probe(), 7);
    last.step(Probe::KeyAfter);
    assert_eq!((last.lo, last.hi), (8, 8));
    assert!(last.is_closed());
    assert_eq!(last.probe(), 8);
    assert!(Window::new(0).is_closed());
}
