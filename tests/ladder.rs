use shortest_word_path::{a_star, Dict, Error, Index, Neighbours};
use std::collections::{HashSet, VecDeque};

const LADDER: [&str; 14] = [
    "рожа", "роза", "поза", "пора", "пара", "парс", "паюс", "плюс", "плес", "плед", "след", "слет",
    "счет", "учет",
];

fn words_of_path(dict: &Dict, path: Vec<u32>) -> Vec<String> {
    path.into_iter().rev().map(|i| dict.get(i).to_string()).collect()
}

fn bfs_len(neighbours: &Neighbours, start: u32, goal: u32) -> Option<usize> {
    let mut seen = HashSet::from([start]);
    let mut queue = VecDeque::from([(start, 0usize)]);
    while let Some((id, d)) = queue.pop_front() {
        if id == goal {
            return Some(d);
        }
        if let Some(next) = neighbours.get(id) {
            for &n in next {
                if seen.insert(n) {
                    queue.push_back((n, d + 1));
                }
            }
        }
    }
    None
}

#[test]
fn lib_a_star() {
    let dict = Dict::create_default().unwrap();
    let index = Index::new(&dict);
    let neighbours = Neighbours::try_from(&dict).unwrap();

    let way: Vec<_> = a_star(
        &neighbours,
        &dict,
        index.get("рожа").unwrap(),
        index.get("учет").unwrap(),
    )
    .unwrap()
    .into_iter()
    .rev()
    .map(|i| dict.get(i))
    .collect();
    assert_eq!(way, LADDER);
}

#[test]
fn main_a_star() {
    let dict = Dict::create_default().unwrap();
    let index = Index::new(&dict);
    let neighbours = Neighbours::try_from(&dict).unwrap();

    let path = a_star(&neighbours, &dict, index.get("рожа").unwrap(), index.get("учет").unwrap())
        .unwrap();
    assert_eq!(words_of_path(&dict, path), LADDER);
}

#[test]
fn two_words_one_apart() {
    let dict = Dict::create("aa\nab").unwrap();
    let neighbours = Neighbours::try_from(&dict).unwrap();
    assert_eq!(neighbours.get(0).unwrap(), &HashSet::from([1]));
    assert_eq!(neighbours.get(1).unwrap(), &HashSet::from([0]));
    assert_eq!(neighbours.edges().len(), 2);
    let path = a_star(&neighbours, &dict, 0, 1).unwrap();
    assert_eq!(words_of_path(&dict, path), ["aa", "ab"]);
}

#[test]
fn two_words_two_apart() {
    let dict = Dict::create("aa\nbb\n").unwrap();
    let neighbours = Neighbours::try_from(&dict).unwrap();
    assert!(neighbours.edges().is_empty());
    assert!(neighbours.get(0).is_none());
    assert_eq!(a_star(&neighbours, &dict, 0, 1), Err(Error::PathNotFound));
}

#[test]
fn start_is_goal() {
    let dict = Dict::create_default().unwrap();
    let neighbours = Neighbours::try_from(&dict).unwrap();
    for id in [0u32, 5, 20] {
        assert_eq!(a_star(&neighbours, &dict, id, id).unwrap(), vec![id]);
    }
    let lone = Dict::create("aa\nbb").unwrap();
    let none = Neighbours::try_from(&lone).unwrap();
    assert_eq!(a_star(&none, &lone, 1, 1).unwrap(), vec![1]);
}

#[test]
fn unreachable_pair_fails() {
    let dict = Dict::create("cat\ncot\ndog\ndig").unwrap();
    let neighbours = Neighbours::try_from(&dict).unwrap();
    assert_eq!(a_star(&neighbours, &dict, 0, 2), Err(Error::PathNotFound));
    assert_eq!(a_star(&neighbours, &dict, 3, 1), Err(Error::PathNotFound));
    assert_eq!(a_star(&neighbours, &dict, 0, 1).unwrap(), vec![1, 0]);
}

#[test]
fn graph_is_symmetric_without_self_loops() {
    let dict = Dict::create_default().unwrap();
    let neighbours = Neighbours::try_from(&dict).unwrap();
    for (&a, set) in neighbours.iter() {
        assert!(!set.is_empty());
        assert!(!set.contains(&a));
        for &b in set {
            assert!(neighbours.get(b).unwrap().contains(&a));
        }
    }
}

#[test]
fn graph_matches_pairwise_comparison() {
    let dict = Dict::create_default().unwrap();
    let neighbours = Neighbours::try_from(&dict).unwrap();
    let words: Vec<Vec<char>> = dict.iter().map(|w| w.chars().collect()).collect();
    let mut expected = 0;
    for (a, wa) in words.iter().enumerate() {
        for (b, wb) in words.iter().enumerate() {
            let diff = wa.iter().zip(wb.iter()).filter(|(x, y)| x != y).count();
            let linked = neighbours
                .get(a as u32)
                .map_or(false, |set| set.contains(&(b as u32)));
            assert_eq!(linked, diff == 1, "{a} {b}");
            if diff == 1 {
                expected += 1;
            }
        }
    }
    let found: usize = neighbours.iter().map(|(_, set)| set.len()).sum();
    assert_eq!(found, expected);
    assert!(expected > 0);
}

#[test]
fn single_letter_words_are_all_neighbours() {
    let dict = Dict::create("a\nb\nc\nb").unwrap();
    let neighbours = Neighbours::try_from(&dict).unwrap();
    assert_eq!(neighbours.get(0).unwrap(), &HashSet::from([1, 2, 3]));
    assert_eq!(neighbours.get(1).unwrap(), &HashSet::from([0, 2]));
    assert_eq!(neighbours.get(3).unwrap(), &HashSet::from([0, 2]));
}

#[test]
fn a_star_matches_breadth_first_lengths() {
    let dict = Dict::create_default().unwrap();
    let neighbours = Neighbours::try_from(&dict).unwrap();
    let n = dict.len() as u32;
    for start in 0..n {
        for goal in (0..n).step_by(7) {
            let found = a_star(&neighbours, &dict, start, goal);
            match bfs_len(&neighbours, start, goal) {
                Some(d) => {
                    let path = found.unwrap();
                    assert_eq!(path.len(), d + 1);
                    assert_eq!(path[0], goal);
                    assert_eq!(*path.last().unwrap(), start);
                    for pair in path.windows(2) {
                        assert!(neighbours.get(pair[0]).unwrap().contains(&pair[1]));
                    }
                }
                None => assert_eq!(found, Err(Error::PathNotFound)),
            }
        }
    }
}

#[test]
fn index_finds_last_duplicate() {
    let dict = Dict::create("ab\ncd\nab").unwrap();
    let index = Index::new(&dict);
    assert_eq!(index.get("ab"), Some(2));
    assert_eq!(index.get("cd"), Some(1));
    assert_eq!(index.get("zz"), None);
    assert_eq!(index.get("a"), None);
    assert_eq!(index.lookup("ab"), Ok(2));
    assert_eq!(index.lookup("zz"), Err(Error::Lookup("zz".to_string())));
}

#[test]
fn equal_inputs_give_equal_ladders() {
    let dict = Dict::create_default().unwrap();
    let first = Neighbours::try_from(&dict).unwrap();
    let second = Neighbours::try_from(&Dict::create_default().unwrap()).unwrap();
    let n = dict.len() as u32;
    for start in (0..n).step_by(3) {
        for goal in (0..n).step_by(5) {
            assert_eq!(
                a_star(&first, &dict, start, goal),
                a_star(&second, &dict, start, goal)
            );
        }
    }
}
