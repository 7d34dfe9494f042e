use cutlery::{BuildError, WordPiece, WordPieceProcessor};

fn vocab(pieces: &[&str]) -> WordPieceProcessor {
    WordPieceProcessor::new(pieces.iter().map(|p| p.to_string()).collect()).unwrap()
}

#[test]
fn build_assigns_positional_ids() {
    let v = vocab(&["un", "able", "do"]);
    assert_eq!(v.get_initial("un"), Some(0));
    assert_eq!(v.get_initial("able"), Some(1));
    assert_eq!(v.get_initial("do"), Some(2));
}

#[test]
fn build_rejects_empty_piece() {
    let r = WordPieceProcessor::new(vec!["a".to_string(), String::new()]);
    assert_eq!(r.unwrap_err(), BuildError::EmptyPiece);
}

#[test]
fn build_rejects_duplicate_piece() {
    let r = WordPieceProcessor::new(vec!["a".to_string(), "b".to_string(), "a".to_string()]);
    assert_eq!(r.unwrap_err(), BuildError::DuplicatePiece);
}

#[test]
fn build_reports_empty_before_duplicate() {
    let r = WordPieceProcessor::new(vec![
        "a".to_string(),
        "a".to_string(),
        String::new(),
    ]);
    assert_eq!(r.unwrap_err(), BuildError::EmptyPiece);
}

#[test]
fn split_covers_input_exactly() {
    let v = vocab(&["un", "able", "do"]);
    let segs = v.split("unable");
    let mut rebuilt = String::new();
    for seg in &segs {
        match seg {
            WordPiece::Found { piece, .. } => rebuilt.push_str(piece),
            WordPiece::Missing => rebuilt.push('?'),
        }
    }
    assert_eq!(rebuilt, "unable");
    assert_eq!(
        segs,
        vec![
            WordPiece::Found { piece: "un".to_string(), idx: 0 },
            WordPiece::Found { piece: "able".to_string(), idx: 1 },
        ]
    );
}

#[test]
fn split_covers_input_with_missing_spans() {
    let v = vocab(&["a", "b"]);
    let segs = v.split("axb");
    assert_eq!(
        segs,
        vec![
            WordPiece::Found { piece: "a".to_string(), idx: 0 },
            WordPiece::Missing,
            WordPiece::Found { piece: "b".to_string(), idx: 1 },
        ]
    );
}

#[test]
fn split_never_exceeds_one_step_per_character() {
    let v = vocab(&["ab", "a", "b"]);
    for token in ["", "a", "ab", "ba", "xyz", "ababab", "axbxa"] {
        assert!(v.split(token).len() <= token.chars().count());
    }
}

#[test]
fn split_is_deterministic() {
    let pieces = ["play", "ing", "ed"];
    let v1 = vocab(&pieces);
    let v2 = vocab(&pieces);
    for token in ["playing", "played", "playground", "xx"] {
        assert_eq!(v1.split(token), v1.split(token));
        assert_eq!(v1.split(token), v2.split(token));
    }
}

#[test]
fn split_prefers_longest_match() {
    let v = vocab(&["a", "ab", "abc", "b"]);
    let segs = v.split("abx");
    assert_eq!(
        segs,
        vec![
            WordPiece::Found { piece: "ab".to_string(), idx: 1 },
            WordPiece::Missing,
        ]
    );
    let segs = v.split("abc");
    assert_eq!(segs, vec![WordPiece::Found { piece: "abc".to_string(), idx: 2 }]);
}

#[test]
fn split_empty_input_yields_no_segments() {
    let v = vocab(&["a", "b"]);
    assert_eq!(v.split(""), vec![]);
}

#[test]
fn split_works_per_character_not_per_byte() {
    let v = vocab(&["é", "x"]);
    let segs = v.split("éxö");
    assert_eq!(
        segs,
        vec![
            WordPiece::Found { piece: "é".to_string(), idx: 0 },
            WordPiece::Found { piece: "x".to_string(), idx: 1 },
            WordPiece::Missing,
        ]
    );
}

#[test]
fn encode_marks_continuation_pieces() {
    let v = vocab(&["un", "able", "do"]);
    let (ids, pieces) = v.encode("unable").unwrap();
    assert_eq!(ids, vec![0, 1]);
    assert_eq!(pieces, vec![Some("un".to_string()), Some("##able".to_string())]);
}

#[test]
fn encode_emits_sentinel_for_missing_spans() {
    let v = vocab(&["a", "b"]);
    let (ids, pieces) = v.encode("ax").unwrap();
    assert_eq!(ids, vec![0, -1]);
    assert_eq!(pieces, vec![Some("a".to_string()), None]);
}

#[test]
fn encode_first_piece_is_unmarked_even_after_missing() {
    let v = vocab(&["b"]);
    let (ids, pieces) = v.encode("xb").unwrap();
    assert_eq!(ids, vec![-1, 0]);
    assert_eq!(pieces, vec![None, Some("##b".to_string())]);
}

#[test]
fn encode_empty_input() {
    let v = vocab(&["a"]);
    let (ids, pieces) = v.encode("").unwrap();
    assert!(ids.is_empty());
    assert!(pieces.is_empty());
}

#[test]
fn to_list_round_trips_construction_input() {
    let input = vec!["un".to_string(), "able".to_string(), "do".to_string()];
    let v = WordPieceProcessor::new(input.clone()).unwrap();
    assert_eq!(v.to_list(), input);
}

#[test]
fn to_list_round_trips_empty_vocabulary() {
    let v = WordPieceProcessor::new(vec![]).unwrap();
    assert_eq!(v.to_list(), Vec::<String>::new());
}

#[test]
fn get_initial_finds_each_piece_and_nothing_else() {
    let v = vocab(&["un", "able", "do"]);
    assert_eq!(v.get_initial("do"), Some(2));
    assert_eq!(v.get_initial("dont"), None);
    assert_eq!(v.get_initial(""), None);
    assert_eq!(v.get_initial("##able"), None);
}

#[test]
fn from_text_reads_one_piece_per_line() {
    let v = WordPieceProcessor::from_text("un\nable\ndo").unwrap();
    assert_eq!(v.to_list(), vec!["un".to_string(), "able".to_string(), "do".to_string()]);
}

#[test]
fn from_text_ignores_trailing_newline() {
    let v = WordPieceProcessor::from_text("a\nb\n").unwrap();
    assert_eq!(v.to_list(), vec!["a".to_string(), "b".to_string()]);
}

#[test]
fn from_text_rejects_interior_empty_line() {
    let r = WordPieceProcessor::from_text("a\n\nb");
    assert_eq!(r.unwrap_err(), BuildError::EmptyPiece);
}

#[test]
fn from_text_rejects_duplicate_line() {
    let r = WordPieceProcessor::from_text("a\nb\na\n");
    assert_eq!(r.unwrap_err(), BuildError::DuplicatePiece);
}

#[test]
fn from_text_of_empty_text_builds_empty_vocabulary() {
    let v = WordPieceProcessor::from_text("").unwrap();
    assert_eq!(v.to_list(), Vec::<String>::new());
    assert_eq!(v.split("anything").len(), 8);
}

#[test]
fn split_whole_token_single_piece() {
    let v = vocab(&["unable", "un", "able"]);
    assert_eq!(v.split("unable"), vec![WordPiece::Found { piece: "unable".to_string(), idx: 0 }]);
}

#[test]
fn split_all_missing_when_nothing_matches() {
    let v = vocab(&["x", "y"]);
    assert_eq!(v.split("abc"), vec![WordPiece::Missing, WordPiece::Missing, WordPiece::Missing]);
}

#[test]
fn from_text_of_single_newline_is_an_empty_piece() {
    let r = WordPieceProcessor::from_text("\n");
    assert_eq!(r.unwrap_err(), BuildError::EmptyPiece);
}

#[test]
fn encode_matches_split_segment_for_segment() {
    let v = vocab(&["pre", "fix", "s"]);
    let token = "prefixesq";
    let segs = v.split(token);
    let (ids, pieces) = v.encode(token).unwrap();
    assert_eq!(ids.len(), segs.len());
    assert_eq!(pieces.len(), segs.len());
    for (k, seg) in segs.iter().enumerate() {
        match seg {
            WordPiece::Found { piece, idx } => {
                assert_eq!(ids[k], *idx as i64);
                let expect = if k == 0 { piece.clone() } else { format!("##{}", piece) };
                assert_eq!(pieces[k].as_deref(), Some(expect.as_str()));
            }
            WordPiece::Missing => {
                assert_eq!(ids[k], -1);
                assert_eq!(pieces[k], None);
            }
        }
    }
}
