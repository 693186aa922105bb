use word_ladder::codec::{decode_dict, encode_dict, is_dict_text, load_dict, CodecError, DictError};
use word_ladder::extract::extract_words;
use word_ladder::graph::build_graph;
use word_ladder::ladder::{find_ladder, find_listed_ladder, LadderError};
use word_ladder::search::find_path;
use word_ladder::words::{load_words, lowercase_alphabet, LoadError, WordSet};

fn load(text: &str) -> WordSet {
    match load_words(text.as_bytes(), &lowercase_alphabet()) {
        Ok(ws) => ws,
        Err(_) => panic!("the word list should load"),
    }
}

fn position(ws: &WordSet, w: &str) -> usize {
    ws.find(w.as_bytes()).expect("word should be in the set")
}

fn sorted_neighbors(ws: &WordSet, w: &str) -> Vec<String> {
    let g = build_graph(ws);
    let i = position(ws, w);
    let mut out: Vec<String> = g
        .neighbors_of(i)
        .iter()
        .map(|&j| String::from_utf8(ws.word(j).clone()).unwrap())
        .collect();
    out.sort();
    out
}

fn ladder(text: &str, start: &str, end: &str) -> Result<Option<Vec<String>>, LadderError> {
    let ws = load(text);
    let g = build_graph(&ws);
    find_ladder(&ws, &g, start.as_bytes(), end.as_bytes()).map(|found| {
        found.map(|l| l.into_iter().map(|w| String::from_utf8(w).unwrap()).collect())
    })
}

fn one_apart(a: &str, b: &str) -> bool {
    a.len() == b.len() && a.bytes().zip(b.bytes()).filter(|(x, y)| x != y).count() == 1
}

#[test]
fn scenario_three_hop_ladder() {
    let found = ladder("cat\ncot\ncog\ndog\ndot\n", "cat", "dog").unwrap().unwrap();
    assert_eq!(found.len(), 4);
    assert_eq!(found[0], "cat");
    assert_eq!(found[1], "cot");
    assert!(found[2] == "cog" || found[2] == "dot");
    assert_eq!(found[3], "dog");
}

#[test]
fn scenario_no_path() {
    assert!(ladder("cat\ndog\n", "cat", "dog").unwrap().is_none());
}

#[test]
fn scenario_same_word() {
    let found = ladder("cat\ncot\ndog\n", "cat", "cat").unwrap().unwrap();
    assert_eq!(found, vec!["cat".to_string()]);
}

#[test]
fn scenario_extract_length_three() {
    let out = extract_words(b"cat\ndogs\ncot\na\n", 3);
    assert_eq!(out, b"cat\ncot\n".to_vec());
}

#[test]
fn scenario_start_word_missing() {
    match ladder("cat\ncot\ndog\n", "xyz", "dog") {
        Err(LadderError::WordNotFound { word }) => assert_eq!(word, b"xyz".to_vec()),
        _ => panic!("xyz should be reported missing"),
    }
}

#[test]
fn end_word_missing() {
    match ladder("cat\ncot\ndog\n", "cat", "xyz") {
        Err(LadderError::WordNotFound { word }) => assert_eq!(word, b"xyz".to_vec()),
        _ => panic!("xyz should be reported missing"),
    }
}

#[test]
fn both_words_missing_reports_start() {
    match ladder("cat\ncot\n", "abc", "xyz") {
        Err(LadderError::WordNotFound { word }) => assert_eq!(word, b"abc".to_vec()),
        _ => panic!("abc should be reported missing"),
    }
}

#[test]
fn neighbors_are_symmetric() {
    let ws = load("cat\ncot\ncog\ndog\ndot\nbat\nbag\n");
    let g = build_graph(&ws);
    for i in 0..ws.len() {
        for j in 0..ws.len() {
            assert_eq!(g.neighbors_of(i).contains(&j), g.neighbors_of(j).contains(&i));
        }
    }
}

#[test]
fn no_word_is_its_own_neighbor() {
    let ws = load("cat\ncot\ncog\ndog\ndot\n");
    let g = build_graph(&ws);
    for i in 0..ws.len() {
        assert!(!g.neighbors_of(i).contains(&i));
    }
}

#[test]
fn neighbor_sets_are_exact() {
    let ws = load("cat\ncot\ncog\ndog\ndot\n");
    assert_eq!(sorted_neighbors(&ws, "cat"), vec!["cot".to_string()]);
    assert_eq!(sorted_neighbors(&ws, "cot"), vec!["cat", "cog", "dot"]);
    assert_eq!(sorted_neighbors(&ws, "dog"), vec!["cog", "dot"]);
}

#[test]
fn isolated_word_has_empty_neighbor_list() {
    let ws = load("cat\nzzz\n");
    let g = build_graph(&ws);
    assert_eq!(g.len(), 2);
    assert!(g.neighbors_of(position(&ws, "zzz")).is_empty());
}

#[test]
fn other_alphabet() {
    let digits: Vec<u8> = b"0123456789".to_vec();
    let ws = match load_words(b"10\n11\n21\n", &digits) {
        Ok(ws) => ws,
        Err(_) => panic!("digits should load"),
    };
    let g = build_graph(&ws);
    let found = find_ladder(&ws, &g, b"10", b"21").unwrap().unwrap();
    assert_eq!(found, vec![b"10".to_vec(), b"11".to_vec(), b"21".to_vec()]);
}

/// Hop counts of an exhaustive search over all pairs.
fn all_distances(ws: &WordSet) -> Vec<Vec<Option<usize>>> {
    let n = ws.len();
    let words: Vec<String> = (0..n).map(|i| String::from_utf8(ws.word(i).clone()).unwrap()).collect();
    let mut d = vec![vec![None; n]; n];
    for s in 0..n {
        d[s][s] = Some(0);
        let mut changed = true;
        while changed {
            changed = false;
            for u in 0..n {
                for v in 0..n {
                    if let Some(du) = d[s][u] {
                        if one_apart(&words[u], &words[v]) && d[s][v].map_or(true, |dv| du + 1 < dv) {
                            d[s][v] = Some(du + 1);
                            changed = true;
                        }
                    }
                }
            }
        }
    }
    d
}

#[test]
fn hop_counts_are_shortest() {
    let ws = load("cat\ncot\ncog\ndog\ndot\nbat\nbag\nbog\nzzz\nhat\nhot\n");
    let g = build_graph(&ws);
    let d = all_distances(&ws);
    for s in 0..ws.len() {
        for e in 0..ws.len() {
            match find_path(&g, s, e) {
                Some(p) => {
                    assert_eq!(Some(p.len() - 1), d[s][e]);
                    assert_eq!(p[0], s);
                    assert_eq!(*p.last().unwrap(), e);
                    for k in 0..p.len() - 1 {
                        assert!(g.neighbors_of(p[k]).contains(&p[k + 1]));
                    }
                }
                None => assert_eq!(d[s][e], None),
            }
        }
    }
}

#[test]
fn dictionary_round_trip() {
    let ws = load("cat\ncot\ncog\ndog\ndot\nzzz\n");
    let g = build_graph(&ws);
    let text = encode_dict(&ws, &g);
    let entries = decode_dict(&text).unwrap_or_else(|_| panic!("encoded text should decode"));
    assert_eq!(entries.len(), ws.len());
    for (i, e) in entries.iter().enumerate() {
        assert_eq!(&e.word, ws.word(i));
        let mut got: Vec<Vec<u8>> = e.neighbors.clone();
        got.sort();
        let mut want: Vec<Vec<u8>> = g.neighbors_of(i).iter().map(|&j| ws.word(j).clone()).collect();
        want.sort();
        assert_eq!(got, want);
    }
}

#[test]
fn dictionary_text_format() {
    let ws = load("cat\ncot\nzzz\n");
    let g = build_graph(&ws);
    let text = encode_dict(&ws, &g);
    assert_eq!(text, b"cat cot\ncot cat\nzzz\n".to_vec());
}

#[test]
fn dictionary_malformed_line() {
    match decode_dict(b"cat cot\n\ncot cat\n") {
        Err(CodecError::MalformedLine { line }) => assert_eq!(line, 1),
        _ => panic!("the empty line should be refused"),
    }
    match decode_dict(b"cat  cot\n") {
        Err(CodecError::MalformedLine { line }) => assert_eq!(line, 0),
        _ => panic!("the doubled space should be refused"),
    }
}

#[test]
fn extract_is_idempotent() {
    let text = b"cat\ndogs\ncot\na\n\nbird\nhen";
    let once = extract_words(text, 3);
    let twice = extract_words(&once, 3);
    assert_eq!(once, b"cat\ncot\nhen\n".to_vec());
    assert_eq!(once, twice);
}

#[test]
fn extract_empty_input() {
    assert!(extract_words(b"", 3).is_empty());
}

#[test]
fn load_skips_empty_lines_and_duplicates() {
    let ws = load("\ncat\n\ncot\ncat\n\n");
    assert_eq!(ws.len(), 2);
    assert_eq!(ws.width(), 3);
    assert_eq!(ws.word(0), &b"cat".to_vec());
    assert_eq!(ws.word(1), &b"cot".to_vec());
    assert_eq!(ws.find(b"cot"), Some(1));
    assert_eq!(ws.find(b"dog"), None);
}

#[test]
fn load_invalid_encoding() {
    assert!(matches!(load_words("cat\nCOT\n".as_bytes(), &lowercase_alphabet()), Err(LoadError::InvalidEncoding)));
    assert!(matches!(load_words("cat\ncöt\n".as_bytes(), &lowercase_alphabet()), Err(LoadError::InvalidEncoding)));
}

#[test]
fn load_inconsistent_length() {
    match load_words(b"cat\ndogs\ncot\nbirds\n", &lowercase_alphabet()) {
        Err(LoadError::InconsistentLength { word }) => assert_eq!(word, b"dogs".to_vec()),
        _ => panic!("dogs should be reported"),
    }
}

#[test]
fn load_empty_set() {
    assert!(matches!(load_words(b"\n\n", &lowercase_alphabet()), Err(LoadError::EmptySet)));
    assert!(matches!(load_words(b"", &lowercase_alphabet()), Err(LoadError::EmptySet)));
}

#[test]
fn lowercase_alphabet_letters() {
    assert_eq!(lowercase_alphabet(), b"abcdefghijklmnopqrstuvwxyz".to_vec());
}

fn load_dictionary(text: &[u8]) -> (WordSet, word_ladder::graph::NeighborGraph) {
    match load_dict(text, &lowercase_alphabet()) {
        Ok(loaded) => loaded,
        Err(e) => panic!("dictionary should load: {:?}", e),
    }
}

#[test]
fn dictionary_loads_as_the_same_graph() {
    let ws = load("cat\ncot\ncog\ndog\ndot\nzzz\n");
    let g = build_graph(&ws);
    let text = encode_dict(&ws, &g);
    let (ws2, g2) = load_dictionary(&text);
    assert_eq!(ws2.len(), ws.len());
    for i in 0..ws.len() {
        let i2 = ws2.find(ws.word(i)).unwrap();
        let mut want: Vec<Vec<u8>> = g.neighbors_of(i).iter().map(|&j| ws.word(j).clone()).collect();
        let mut got: Vec<Vec<u8>> = g2.neighbors_of(i2).iter().map(|&j| ws2.word(j).clone()).collect();
        want.sort();
        got.sort();
        assert_eq!(got, want);
    }
}

#[test]
fn ladder_over_loaded_dictionary() {
    let (ws, g) = load_dictionary(b"cat cot\ncot cat cog dot\ncog cot dog\ndog cog dot\ndot cot dog\n");
    let found = find_listed_ladder(&ws, &g, b"cat", b"dog").unwrap().unwrap();
    assert_eq!(found.len(), 4);
    assert_eq!(found[0], b"cat".to_vec());
    assert_eq!(found[3], b"dog".to_vec());
    assert!(find_listed_ladder(&ws, &g, b"cat", b"cat").unwrap().unwrap().len() == 1);
    assert!(matches!(
        find_listed_ladder(&ws, &g, b"cat", b"zzz"),
        Err(LadderError::WordNotFound { .. })
    ));
}

#[test]
fn loaded_dictionary_follows_listed_links_only() {
    let (ws, g) = load_dictionary(b"cat\ncot\n");
    assert!(find_listed_ladder(&ws, &g, b"cat", b"cot").unwrap().is_none());
}

#[test]
fn dictionary_unknown_neighbor() {
    match load_dict(b"cat cot\ncot cat bat\n", &lowercase_alphabet()) {
        Err(DictError::UnknownNeighbor { line }) => assert_eq!(line, 1),
        _ => panic!("bat should be reported unknown"),
    }
}

#[test]
fn dictionary_malformed_before_words() {
    match load_dict(b"cat cot\n\n", &lowercase_alphabet()) {
        Err(DictError::MalformedLine { line }) => assert_eq!(line, 1),
        _ => panic!("the empty line should be refused"),
    }
}

#[test]
fn dictionary_bad_words() {
    assert!(matches!(
        load_dict(b"cat cots\ncots cat\n", &lowercase_alphabet()),
        Err(DictError::Words { error: LoadError::InconsistentLength { .. } })
    ));
    assert!(matches!(
        load_dict(b"", &lowercase_alphabet()),
        Err(DictError::Words { error: LoadError::EmptySet })
    ));
}

#[test]
fn dictionary_text_is_recognized() {
    assert!(is_dict_text(b"cat cot\ncot cat\n"));
    assert!(!is_dict_text(b"cat\ncot\n"));
}
