use boggle::dictionary::Dictionary;
use boggle::grid::Grid;
use boggle::search::{find_words, find_words_with};
use boggle::sink::ResultSink;
use boggle::state::SearchState;

fn chars(s: &str) -> Vec<char> {
    s.chars().collect()
}

fn grid_of(rows: &[&str]) -> Grid {
    Grid::new(rows.iter().map(|r| chars(r)).collect()).expect("rectangular grid")
}

fn dict_of(words: &[&str]) -> Dictionary {
    Dictionary::from_words(words.iter().map(|w| chars(w)).collect())
}

fn found(grid: &Grid, dict: &Dictionary, prune: bool) -> Vec<String> {
    let mut sink = ResultSink::new();
    find_words_with(grid, dict, &mut sink, prune);
    sink.words().iter().map(|w| w.iter().collect()).collect()
}

#[test]
fn four_by_four_scenario() {
    let grid = grid_of(&["mlia", "nuit", "lenp", "usee"]);
    let dict = dict_of(&["line", "lien", "mini", "pun"]);
    let out = found(&grid, &dict, true);
    assert_eq!(out, vec!["lien", "lien", "line", "line", "line"]);
    assert!(out.contains(&"line".to_string()));
    assert!(!out.contains(&"pun".to_string()));
    assert!(!out.contains(&"mini".to_string()));
}

#[test]
fn find_words_prunes_and_appends() {
    let grid = grid_of(&["mlia", "nuit", "lenp", "usee"]);
    let dict = dict_of(&["line"]);
    let mut sink = ResultSink::new();
    sink.record(chars("seed"));
    find_words(&grid, &dict, &mut sink);
    let out: Vec<String> = sink.words().iter().map(|w| w.iter().collect()).collect();
    assert_eq!(out, vec!["seed", "line", "line", "line"]);
    assert_eq!(sink.len(), 4);
}

#[test]
fn pruning_keeps_the_reported_words() {
    let grid = grid_of(&["mlia", "nuit", "lenp", "usee"]);
    let dict = dict_of(&["line", "lien", "mini", "pun", "use", "sue", "tin", "zebra"]);
    let pruned = found(&grid, &dict, true);
    let unpruned = found(&grid, &dict, false);
    assert_eq!(pruned, unpruned);
    assert!(pruned.contains(&"use".to_string()));
    assert!(!pruned.contains(&"zebra".to_string()));
}

#[test]
fn every_path_reports_its_word() {
    let grid = grid_of(&["ab", "cd"]);
    let dict = dict_of(&["a", "ab", "abdc", "dcba", "ad", "x", ""]);
    assert_eq!(found(&grid, &dict, true), vec!["a", "ab", "abdc", "ad", "dcba"]);
    assert_eq!(found(&grid, &dict, false), vec!["a", "ab", "abdc", "ad", "dcba"]);
}

#[test]
fn repeated_letters_are_reported_once_per_path() {
    let grid = grid_of(&["aa"]);
    let dict = dict_of(&["a", "aa", "aaa"]);
    assert_eq!(found(&grid, &dict, true), vec!["a", "aa", "a", "aa"]);
}

#[test]
fn no_wraparound_at_edges() {
    let grid = grid_of(&["abc"]);
    let dict = dict_of(&["ca", "ac", "abc", "cba"]);
    assert_eq!(found(&grid, &dict, true), vec!["abc", "cba"]);
}

#[test]
fn single_cell_grid() {
    let grid = grid_of(&["q"]);
    assert_eq!(found(&grid, &dict_of(&["q", "qu"]), true), vec!["q"]);
    assert_eq!(found(&grid, &dict_of(&["u"]), true), Vec::<String>::new());
}

#[test]
fn empty_dictionary_finds_nothing() {
    let grid = grid_of(&["ab", "cd"]);
    let dict = Dictionary::new();
    assert!(found(&grid, &dict, true).is_empty());
    assert!(found(&grid, &dict, false).is_empty());
}

#[test]
fn matching_is_case_sensitive() {
    let grid = grid_of(&["Ab"]);
    let dict = dict_of(&["ab", "Ab"]);
    assert_eq!(found(&grid, &dict, true), vec!["Ab"]);
}

#[test]
fn grid_rejects_bad_shapes() {
    assert!(Grid::new(vec![]).is_none());
    assert!(Grid::new(vec![vec![]]).is_none());
    assert!(Grid::new(vec![chars("ab"), chars("c")]).is_none());
    let g = Grid::new(vec![chars("ab"), chars("cd"), chars("ef")]).unwrap();
    assert_eq!(g.rows(), 3);
    assert_eq!(g.cols(), 2);
    assert_eq!(g.char_at(2, 1), 'f');
    assert_eq!(g.char_at(0, 0), 'a');
}

#[test]
fn neighbors_in_row_major_order() {
    let g = grid_of(&["abc", "def", "ghi"]);
    assert_eq!(g.neighbors(0, 0), vec![(0, 1), (1, 0), (1, 1)]);
    assert_eq!(
        g.neighbors(1, 1),
        vec![(0, 0), (0, 1), (0, 2), (1, 0), (1, 2), (2, 0), (2, 1), (2, 2)]
    );
    assert_eq!(g.neighbors(2, 1), vec![(1, 0), (1, 1), (1, 2), (2, 0), (2, 2)]);
    let single = grid_of(&["z"]);
    assert!(single.neighbors(0, 0).is_empty());
}

#[test]
fn dictionary_membership_and_prefixes() {
    let d = dict_of(&["line", "lien", "line", ""]);
    assert!(d.contains(&chars("line")));
    assert!(d.contains(&chars("lien")));
    assert!(d.contains(&chars("")));
    assert!(!d.contains(&chars("lin")));
    assert!(!d.contains(&chars("lines")));
    assert!(d.has_prefix(&chars("li")));
    assert!(d.has_prefix(&chars("line")));
    assert!(!d.has_prefix(&chars("lx")));
    assert!(!d.has_prefix(&chars("lines")));
    let mut e = Dictionary::new();
    assert!(!e.has_prefix(&chars("")));
    e.insert(chars("pun"));
    e.insert(chars("pun"));
    assert!(e.contains(&chars("pun")));
    assert!(e.has_prefix(&chars("")));
}

#[test]
fn enter_then_leave_restores_state() {
    let mut s = SearchState::new(2, 3);
    s.enter(0, 1, 'x');
    let path_before = s.path().clone();
    s.enter(1, 2, 'y');
    assert!(s.is_visited(1, 2));
    assert!(s.is_visited(0, 1));
    assert_eq!(s.path(), &vec!['x', 'y']);
    s.leave(1, 2);
    assert_eq!(s.path(), &path_before);
    assert!(!s.is_visited(1, 2));
    assert!(s.is_visited(0, 1));
    s.leave(0, 1);
    assert!(s.path().is_empty());
    for r in 0..2 {
        for c in 0..3 {
            assert!(!s.is_visited(r, c));
        }
    }
}

#[test]
fn diagonal_is_adjacent_but_edges_do_not_wrap() {
    let grid = grid_of(&["mlia", "nuit", "lenp", "usee"]);
    let dict = dict_of(&["ma", "me", "mu"]);
    assert_eq!(found(&grid, &dict, true), vec!["mu"]);
    assert_eq!(found(&grid, &dict, false), vec!["mu"]);
}

#[test]
fn duplicates_collapse_and_case_is_kept() {
    let grid = grid_of(&["mlia", "nuit", "lenp", "usee"]);
    let dict = dict_of(&["LINE", "Line", "line", "line"]);
    assert_eq!(found(&grid, &dict, true), vec!["line", "line", "line"]);
}

#[test]
fn reports_come_grouped_by_start_cell() {
    let grid = grid_of(&["ab", "ba"]);
    let dict = dict_of(&["ab", "ba", "aba"]);
    assert_eq!(
        found(&grid, &dict, true),
        vec!["ab", "aba", "ab", "aba", "ba", "ba", "ba", "ba", "ab", "aba", "ab", "aba"]
    );
}
