use wiki_scraper::commands::links::generate_incoming_links;
use wiki_scraper::commands::shortest_path::{Round, Solver};
use wiki_scraper::hierarchical_map::HierarchicalMap;
use wiki_scraper::titles::id_short_key;

type Links = HierarchicalMap<u8, u32, Vec<u32>, fn(&u32) -> u8>;

const A: u32 = 1;
const B: u32 = 2;
const C: u32 = 3;
const D: u32 = 4;

fn graph(edges: &[(u32, u32)]) -> (Links, Links) {
    let mut outgoing: Links = HierarchicalMap::new("outgoing_links".to_string(), id_short_key);
    for (from, to) in edges {
        let to = *to;
        outgoing.mutate_with_default(*from, move |mut v: Vec<u32>| {
            v.push(to);
            v
        });
    }
    outgoing.mark_loaded();
    let incoming = generate_incoming_links(&outgoing, id_short_key as fn(&u32) -> u8);
    (outgoing, incoming)
}

fn is_path(edges: &[(u32, u32)], path: &[u32]) -> bool {
    path.windows(2).all(|w| edges.contains(&(w[0], w[1])))
}

#[test]
fn diamond_graph_scenario() {
    let edges = [(A, B), (B, C), (A, D), (D, C)];
    let (outgoing, incoming) = graph(&edges);
    let path = Solver::new(A, C).solve(&outgoing, &incoming).unwrap();
    assert_eq!(path.len(), 3);
    assert!(path == vec![A, B, C] || path == vec![A, D, C]);
    assert_eq!(Solver::new(C, A).solve(&outgoing, &incoming), None);
}

#[test]
fn no_directed_path_scenario() {
    let edges = [(A, B), (C, B)];
    let (outgoing, incoming) = graph(&edges);
    assert_eq!(Solver::new(A, C).solve(&outgoing, &incoming), None);
    // A search that only goes forward finds nothing either.
    let mut search = Solver::new(A, C);
    search.populate_forward(&outgoing);
    assert!(search.complete_path().is_none());
    search.populate_forward(&outgoing);
    assert!(search.complete_path().is_none());
    assert_eq!(search.depths(), (3, 1));
}

#[test]
fn search_along_outgoing_links_alone() {
    let empty = || -> Links {
        let mut none: Links = HierarchicalMap::new("incoming_links".to_string(), id_short_key);
        none.mark_loaded();
        none
    };
    let (outgoing, _) = graph(&[(A, B), (C, B)]);
    assert_eq!(Solver::new(A, C).solve(&outgoing, &empty()), None);
    // A path that is found without the incoming links is a path.
    let edges = [(A, B), (B, C), (C, D)];
    let (outgoing, _) = graph(&edges);
    let path = Solver::new(A, D).solve(&outgoing, &empty()).unwrap();
    assert_eq!(path, vec![A, B, C, D]);
    assert!(is_path(&edges, &path));
    // So is one that is found with some of them.
    let mut some: Links = HierarchicalMap::new("incoming_links".to_string(), id_short_key);
    some.insert(D, vec![C]);
    some.mark_loaded();
    let path = Solver::new(A, D).solve(&outgoing, &some).unwrap();
    assert_eq!(path, vec![A, B, C, D]);
}

#[test]
fn path_from_an_article_to_itself() {
    let (outgoing, incoming) = graph(&[(A, B)]);
    assert_eq!(Solver::new(A, A).solve(&outgoing, &incoming), Some(vec![A]));
}

#[test]
fn shortest_path_is_found_in_a_larger_graph() {
    // A ring of 40 articles with one shortcut.
    let mut edges: Vec<(u32, u32)> = (1u32..40).map(|i| (i, i + 1)).collect();
    edges.push((40, 1));
    edges.push((5, 30));
    let (outgoing, incoming) = graph(&edges);
    let path = Solver::new(1, 35).solve(&outgoing, &incoming).unwrap();
    assert_eq!(path, vec![1, 2, 3, 4, 5, 30, 31, 32, 33, 34, 35]);
    assert!(is_path(&edges, &path));
    assert!(!path.contains(&0));
    let back = Solver::new(35, 1).solve(&outgoing, &incoming).unwrap();
    assert_eq!(back, vec![35, 36, 37, 38, 39, 40, 1]);
}

#[test]
fn paths_are_shortest_for_every_pair() {
    let edges = [
        (1, 2), (2, 3), (3, 4), (4, 5), (1, 6), (6, 5), (5, 7), (7, 1), (8, 9), (9, 8), (3, 8),
    ];
    let (outgoing, incoming) = graph(&edges);
    // Distances by plain relaxation.
    let n = 10usize;
    let inf = usize::MAX / 2;
    let mut dist = vec![vec![inf; n]; n];
    for i in 1..n {
        dist[i][i] = 0;
    }
    for (a, b) in edges {
        dist[a as usize][b as usize] = 1;
    }
    for k in 1..n {
        for i in 1..n {
            for j in 1..n {
                if dist[i][k] + dist[k][j] < dist[i][j] {
                    dist[i][j] = dist[i][k] + dist[k][j];
                }
            }
        }
    }
    for s in 1..n as u32 {
        for t in 1..n as u32 {
            let found = Solver::new(s, t).solve(&outgoing, &incoming);
            let d = dist[s as usize][t as usize];
            match found {
                Some(path) => {
                    assert_eq!(path.len() - 1, d);
                    assert_eq!(path[0], s);
                    assert_eq!(*path.last().unwrap(), t);
                    assert!(is_path(&edges, &path));
                    assert!(!path.contains(&0));
                }
                None => assert_eq!(d, inf),
            }
        }
    }
}

#[test]
fn rounds_expand_the_smaller_side_and_forward_on_a_tie() {
    let edges = [(A, B), (A, C), (A, D), (B, 5), (C, 5), (D, 5), (5, 6)];
    let (outgoing, incoming) = graph(&edges);
    let mut search = Solver::new(A, 6);
    assert_eq!(search.depths(), (1, 1));
    // One article on each side: the search from the source goes first.
    assert!(matches!(search.round(&outgoing, &incoming), Round::Forward));
    assert_eq!(search.depths(), (2, 1));
    // Three articles against one: now the search from the target goes.
    assert!(matches!(search.round(&outgoing, &incoming), Round::Backward));
    assert_eq!(search.depths(), (2, 2));
    assert!(matches!(search.round(&outgoing, &incoming), Round::Backward));
    match search.round(&outgoing, &incoming) {
        Round::Found(path) => {
            assert_eq!(path.len(), 4);
            assert_eq!(path[0], A);
            assert_eq!(path[2], 5);
            assert_eq!(path[3], 6);
        }
        _ => panic!("the searches meet"),
    }
}

#[test]
fn exhausted_search_ends() {
    let (outgoing, incoming) = graph(&[(A, B)]);
    let mut search = Solver::new(B, A);
    assert!(matches!(search.round(&outgoing, &incoming), Round::Forward));
    assert!(matches!(search.round(&outgoing, &incoming), Round::Exhausted));
}

#[test]
fn incoming_links_mirror_outgoing_links() {
    let edges = [(A, B), (A, C), (B, C), (C, A), (D, C)];
    let (outgoing, incoming) = graph(&edges);
    for x in 1u32..6 {
        for y in 1u32..6 {
            let forward = outgoing.get(&x).map_or(false, |v| v.contains(&y));
            let backward = incoming.get(&y).map_or(false, |v| v.contains(&x));
            assert_eq!(forward, backward);
            assert_eq!(forward, edges.contains(&(x, y)));
        }
    }
    assert!(incoming.is_fully_loaded());
    assert_eq!(incoming.get(&C), Some(&vec![A, B, D]));
}

#[test]
fn incoming_links_are_listed_as_often_as_outgoing_links() {
    let (outgoing, incoming) = graph(&[(A, B), (A, B), (C, B), (A, C), (A, B)]);
    assert_eq!(outgoing.get(&A), Some(&vec![B, B, C, B]));
    assert_eq!(incoming.get(&B), Some(&vec![A, A, A, C]));
    assert_eq!(incoming.get(&C), Some(&vec![A]));
    assert_eq!(incoming.get(&A), None);
}

#[test]
fn identifier_zero_ends_a_trail() {
    // 0 marks the end of a trail, so it cannot stand for an article: the
    // trail back from 7 ends at the article 0 and never reaches 5.
    let edges = [(5, 0), (0, 7)];
    let (outgoing, incoming) = graph(&edges);
    let path = Solver::new(5, 7).solve(&outgoing, &incoming);
    assert_eq!(path, Some(vec![7]));
}
