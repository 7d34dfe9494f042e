use vstd::prelude::*;

verus! {

/// A query failure of the sentence-model adapter.
#[derive(Debug, PartialEq, Eq, Structural, Clone, Copy)]
pub enum SentenceError {
    /// The adapter holds no loaded model: the caller must load one first.
    NoModel,
}

/// The verified decision core of the sentence-model adapter.
///
/// The statistical segmentation engine is an external collaborator: it is
/// loaded from an opaque trained artifact and queried through a narrow
/// surface (encode, decode, special identifiers, size, serialize).  The
/// engine runs outside this library; this type carries the adapter's own
/// state — whether a model has been loaded — and decides for every query
/// whether it may be forwarded to the engine or must be refused.  The
/// surrounding code performs an engine call only after `check_query`
/// returns `Ok`.
pub struct SentencePieceProcessor {
    loaded: bool,
}

impl SentencePieceProcessor {
    /// Whether a model has been loaded into the adapter.
    pub closed spec fn is_loaded(&self) -> bool {
        self.loaded
    }

    /// A freshly constructed adapter holds no model.
    pub fn new() -> (r: SentencePieceProcessor)
        ensures
            !r.is_loaded(),
    {
        SentencePieceProcessor { loaded: false }
    }

    /// The adapter state after an engine model was loaded successfully.
    pub fn with_model() -> (r: SentencePieceProcessor)
        ensures
            r.is_loaded(),
    {
        SentencePieceProcessor { loaded: true }
    }

    /// Decides a query: forwarded exactly when a model is loaded, refused
    /// with `NoModel` otherwise.  Every query of the adapter — encode,
    /// decode, the special-identifier queries, the size query and
    /// serialization — is guarded by this decision, so every query on an
    /// unloaded adapter fails with the state error and nothing else.
    pub fn check_query(&self) -> (r: Result<(), SentenceError>)
        ensures
            r is Ok <==> self.is_loaded(),
            !self.is_loaded() ==> r == Err::<(), SentenceError>(SentenceError::NoModel),
    {
        if self.loaded {
            Ok(())
        } else {
            Err(SentenceError::NoModel)
        }
    }
}

impl Default for SentencePieceProcessor {
    /// Same as `new`: an adapter holding no model.
    fn default() -> (r: SentencePieceProcessor)
        ensures
            !r.is_loaded(),
    {
        SentencePieceProcessor::new()
    }
}

/// One (identifier, piece) pair of an engine encoding.
#[derive(Debug, Clone, PartialEq, Eq)]
pub struct EncodedPiece {
    pub id: u32,
    pub piece: String,
}

/// Splits an engine encoding into its two parallel sequences: identifiers
/// and piece strings, in segmentation order.
pub fn unzip_encoding(pieces: Vec<EncodedPiece>) -> (r: (Vec<u32>, Vec<String>))
    ensures
        r.0@.len() == pieces@.len(),
        r.1@.len() == pieces@.len(),
        forall|k: int| 0 <= k < pieces@.len() ==> r.0@[k] == (#[trigger] pieces@[k]).id,
        forall|k: int| 0 <= k < pieces@.len() ==> (#[trigger] r.1@[k])@ == pieces@[k].piece@,
{
    let n = pieces.len();
    let mut ids: Vec<u32> = Vec::new();
    let mut texts: Vec<String> = Vec::new();
    let mut i: usize = 0;
    while i < n
        invariant
            i <= n,
            n == pieces@.len(),
            ids@.len() == i,
            texts@.len() == i,
            forall|k: int| 0 <= k < i ==> ids@[k] == (#[trigger] pieces@[k]).id,
            forall|k: int| 0 <= k < i ==> (#[trigger] texts@[k])@ == pieces@[k].piece@,
        decreases n - i,
    {
        ids.push(pieces[i].id);
        texts.push(pieces[i].piece.clone());
        i += 1;
    }
    (ids, texts)
}

/// The identifiers of an engine encoding, in segmentation order.
pub fn encoding_ids(pieces: Vec<EncodedPiece>) -> (r: Vec<u32>)
    ensures
        r@.len() == pieces@.len(),
        forall|k: int| 0 <= k < pieces@.len() ==> r@[k] == (#[trigger] pieces@[k]).id,
{
    let n = pieces.len();
    let mut ids: Vec<u32> = Vec::new();
    let mut i: usize = 0;
    while i < n
        invariant
            i <= n,
            n == pieces@.len(),
            ids@.len() == i,
            forall|k: int| 0 <= k < i ==> ids@[k] == (#[trigger] pieces@[k]).id,
        decreases n - i,
    {
        ids.push(pieces[i].id);
        i += 1;
    }
    ids
}

/// The piece strings of an engine encoding, in segmentation order.
pub fn encoding_pieces(pieces: Vec<EncodedPiece>) -> (r: Vec<String>)
    ensures
        r@.len() == pieces@.len(),
        forall|k: int| 0 <= k < pieces@.len() ==> (#[trigger] r@[k])@ == pieces@[k].piece@,
{
    let n = pieces.len();
    let mut texts: Vec<String> = Vec::new();
    let mut i: usize = 0;
    while i < n
        invariant
            i <= n,
            n == pieces@.len(),
            texts@.len() == i,
            forall|k: int| 0 <= k < i ==> (#[trigger] texts@[k])@ == pieces@[k].piece@,
        decreases n - i,
    {
        texts.push(pieces[i].piece.clone());
        i += 1;
    }
    texts
}

} // verus!
