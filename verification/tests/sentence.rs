use cutlery::{EncodedPiece, SentenceError, SentencePieceProcessor, encoding_ids, encoding_pieces, unzip_encoding};

#[test]
fn fresh_adapter_refuses_every_query() {
    let adapter = SentencePieceProcessor::new();
    assert_eq!(adapter.check_query(), Err(SentenceError::NoModel));
}

#[test]
fn default_adapter_refuses_every_query() {
    let adapter = SentencePieceProcessor::default();
    assert_eq!(adapter.check_query(), Err(SentenceError::NoModel));
}

#[test]
fn loaded_adapter_forwards_queries() {
    let adapter = SentencePieceProcessor::with_model();
    assert_eq!(adapter.check_query(), Ok(()));
}

fn sample_encoding() -> Vec<EncodedPiece> {
    vec![
        EncodedPiece { id: 7, piece: "▁he".to_string() },
        EncodedPiece { id: 3, piece: "llo".to_string() },
        EncodedPiece { id: 0, piece: "!".to_string() },
    ]
}

#[test]
fn unzip_encoding_keeps_order_and_pairing() {
    let (ids, pieces) = unzip_encoding(sample_encoding());
    assert_eq!(ids, vec![7, 3, 0]);
    assert_eq!(pieces, vec!["▁he".to_string(), "llo".to_string(), "!".to_string()]);
}

#[test]
fn encoding_ids_projects_identifiers() {
    assert_eq!(encoding_ids(sample_encoding()), vec![7, 3, 0]);
    assert_eq!(encoding_ids(vec![]), Vec::<u32>::new());
}

#[test]
fn encoding_pieces_projects_piece_texts() {
    assert_eq!(
        encoding_pieces(sample_encoding()),
        vec!["▁he".to_string(), "llo".to_string(), "!".to_string()]
    );
    assert_eq!(encoding_pieces(vec![]), Vec::<String>::new());
}
