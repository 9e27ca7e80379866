use lindera_dictionary::nbest::{Lattice, LatticeEdge, NBestGenerator, PathEntry};
use lindera_dictionary::viterbi::{LexType, WordEntry, WordId};

fn edge(start: u32, stop: u32, id: u32, word_cost: i16, path_cost: i32, left_index: u16) -> LatticeEdge {
    LatticeEdge {
        start_index: start,
        stop_index: stop,
        word_entry: WordEntry::new(WordId::new(LexType::System, id), word_cost, 0, 0),
        path_cost,
        left_index,
    }
}

fn path(edge_index: u16, left_pos: u32, left_index: u16, cost: i32) -> PathEntry {
    PathEntry { edge_index, left_pos, left_index, cost }
}

/// "ab" read as "a" + "b" (cost 23) or as "ab" (cost 18), between the start
/// and end edges, with the path costs a forward pass gives: each the least
/// of its transitions' costs plus the word's cost.
fn two_way_lattice() -> Lattice {
    let bos = edge(0, 0, 0, 0, 0, u16::MAX);
    let a = edge(0, 1, 1, 5, 15, 0);
    let b = edge(1, 2, 2, 5, 23, 0);
    let ab = edge(0, 2, 3, 7, 10, 0);
    let eos = edge(2, 2, 0, 0, 18, 1);
    Lattice {
        text_len: 2,
        ends_at: vec![vec![bos], vec![a], vec![b, ab, eos]],
        paths: vec![
            vec![],
            vec![path(0, 0, 0, 10)],
            vec![path(0, 1, 0, 18), path(1, 0, 0, 3), path(2, 2, 0, 23), path(2, 2, 1, 18)],
        ],
    }
}

#[test]
fn paths_come_in_order_of_cost() {
    let lattice = two_way_lattice();
    let mut generator = NBestGenerator::new(&lattice);
    let first = generator.next().unwrap();
    assert_eq!(first, (vec![(0, WordId::new(LexType::System, 3))], 18));
    let second = generator.next().unwrap();
    assert_eq!(
        second,
        (vec![(0, WordId::new(LexType::System, 1)), (1, WordId::new(LexType::System, 2))], 23)
    );
    assert_eq!(generator.next(), None);
    assert_eq!(generator.next(), None);
}

#[test]
fn a_lattice_without_an_end_edge_has_no_path() {
    let lattice = Lattice { text_len: 3, ends_at: vec![vec![]], paths: vec![] };
    let mut generator = NBestGenerator::new(&lattice);
    assert!(generator.queue.is_empty());
    assert_eq!(generator.next(), None);
}

#[test]
fn the_search_starts_from_the_last_edge_at_the_end() {
    let lattice = two_way_lattice();
    let generator = NBestGenerator::new(&lattice);
    assert_eq!(generator.queue.len(), 1);
    assert_eq!((generator.queue[0].byte_pos, generator.queue[0].edge_index), (2, 2));
    assert_eq!((generator.queue[0].fx, generator.queue[0].gx), (18, 0));
    assert_eq!(generator.queue[0].prev, None);
}
