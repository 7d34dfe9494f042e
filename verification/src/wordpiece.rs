use vstd::prelude::*;
use vstd::string::*;

verus! {

// ---------------------------------------------------------------------------
// Specification model
//
// A vocabulary is modelled as the sequence of its piece strings in identifier
// order: piece `i` has identifier `i`.  The greedy longest-match scan and the
// encoding convention are defined over this model alone, so every contract
// below is a statement about sequences of characters.
// ---------------------------------------------------------------------------

/// Largest number of pieces a vocabulary may hold, so that every identifier
/// fits in an `i64` (the sentinel `-1` is reserved for missing segments).
pub open spec fn max_piece_count() -> int {
    0x7fff_ffff_ffff_ffff
}

/// Some entry of `ps` is the empty string.
pub open spec fn has_empty_piece(ps: Seq<Seq<char>>) -> bool {
    exists|i: int| 0 <= i < ps.len() && (#[trigger] ps[i]).len() == 0
}

/// Two distinct entries of `ps` are equal.
pub open spec fn has_duplicate_piece(ps: Seq<Seq<char>>) -> bool {
    exists|i: int, j: int| 0 <= i < j < ps.len() && #[trigger] ps[i] == #[trigger] ps[j]
}

/// A piece list is valid vocabulary input: entries are non-empty and unique.
pub open spec fn valid_pieces(ps: Seq<Seq<char>>) -> bool {
    !has_empty_piece(ps) && !has_duplicate_piece(ps)
}

/// Some vocabulary piece of length `len` equals the span of `tok` that starts
/// at `pos`.
pub open spec fn piece_matches_at(vocab: Seq<Seq<char>>, tok: Seq<char>, pos: int, len: int) -> bool {
    &&& 0 <= pos
    &&& 0 < len
    &&& pos + len <= tok.len()
    &&& vocab.contains(tok.subrange(pos, pos + len))
}

/// The longest piece length at most `cap` that matches at `pos`, or 0 when no
/// piece matches there.
pub open spec fn best_match_len_upto(
    vocab: Seq<Seq<char>>,
    tok: Seq<char>,
    pos: int,
    cap: int,
) -> int
    decreases cap,
{
    if cap <= 0 {
        0
    } else if piece_matches_at(vocab, tok, pos, cap) {
        cap
    } else {
        best_match_len_upto(vocab, tok, pos, cap - 1)
    }
}

/// The length of the longest vocabulary piece matching at `pos`, or 0 when no
/// piece matches there.
pub open spec fn best_match_len(vocab: Seq<Seq<char>>, tok: Seq<char>, pos: int) -> int {
    best_match_len_upto(vocab, tok, pos, tok.len() - pos)
}

/// `best_match_len_upto` is a matching length when positive, and dominates
/// every matching length at most `cap`.
pub proof fn lemma_best_match_len_upto(vocab: Seq<Seq<char>>, tok: Seq<char>, pos: int, cap: int)
    ensures
        0 <= best_match_len_upto(vocab, tok, pos, cap),
        cap >= 0 ==> best_match_len_upto(vocab, tok, pos, cap) <= cap,
        best_match_len_upto(vocab, tok, pos, cap) > 0 ==> piece_matches_at(
            vocab,
            tok,
            pos,
            best_match_len_upto(vocab, tok, pos, cap),
        ),
        forall|l: int|
            0 < l <= cap && #[trigger] piece_matches_at(vocab, tok, pos, l) ==> l
                <= best_match_len_upto(vocab, tok, pos, cap),
    decreases cap,
{
    if cap > 0 && !piece_matches_at(vocab, tok, pos, cap) {
        lemma_best_match_len_upto(vocab, tok, pos, cap - 1);
    }
}

/// One step of the greedy scan, in model form: a matched piece with its
/// identifier, or a one-character span no piece matched.
pub enum SpecSegment {
    Found { id: int, piece: Seq<char> },
    Missing,
}

/// The greedy longest-match segmentation of `tok` from position `pos` on: at
/// each step the longest matching piece is consumed, and where none matches
/// the scan skips exactly one character and emits a missing segment.
pub open spec fn spec_split_from(vocab: Seq<Seq<char>>, tok: Seq<char>, pos: int) -> Seq<
    SpecSegment,
>
    decreases tok.len() - pos,
    via spec_split_from_decreases
{
    if pos < 0 || pos >= tok.len() {
        Seq::empty()
    } else {
        let l = best_match_len(vocab, tok, pos);
        if l > 0 {
            let piece = tok.subrange(pos, pos + l);
            seq![SpecSegment::Found { id: vocab.index_of(piece), piece }] + spec_split_from(
                vocab,
                tok,
                pos + l,
            )
        } else {
            seq![SpecSegment::Missing] + spec_split_from(vocab, tok, pos + 1)
        }
    }
}

#[via_fn]
proof fn spec_split_from_decreases(vocab: Seq<Seq<char>>, tok: Seq<char>, pos: int) {
    if 0 <= pos < tok.len() {
        lemma_best_match_len_upto(vocab, tok, pos, tok.len() - pos);
    }
}

/// The greedy longest-match segmentation of a whole token.
pub open spec fn spec_split(vocab: Seq<Seq<char>>, tok: Seq<char>) -> Seq<SpecSegment> {
    spec_split_from(vocab, tok, 0)
}

/// The two-character prefix that marks a continuation piece in display form.
pub open spec fn continuation_prefix() -> Seq<char> {
    seq!['#', '#']
}

/// The identifier a segment is encoded as: the piece's identifier for a found
/// segment, the sentinel `-1` for a missing one.
pub open spec fn encoded_id(seg: SpecSegment) -> int {
    match seg {
        SpecSegment::Found { id, .. } => id,
        SpecSegment::Missing => -1,
    }
}

/// The display string a segment at position `k` is encoded as: the piece
/// itself for the first segment, the piece behind the continuation prefix for
/// every later found segment, and no string at all for a missing segment.
pub open spec fn encoded_piece(seg: SpecSegment, k: int) -> Option<Seq<char>> {
    match seg {
        SpecSegment::Found { piece, .. } => Some(
            if k == 0 {
                piece
            } else {
                continuation_prefix() + piece
            },
        ),
        SpecSegment::Missing => None,
    }
}

/// Every found segment of `segs` carries an identifier below `n`.
pub open spec fn seg_ids_in_range(segs: Seq<SpecSegment>, n: int) -> bool {
    forall|k: int|
        0 <= k < segs.len() ==> match #[trigger] segs[k] {
            SpecSegment::Found { id, .. } => 0 <= id < n,
            SpecSegment::Missing => true,
        }
}

/// Every identifier the greedy split emits is a real identifier of the
/// vocabulary.
pub proof fn lemma_split_ids_in_range(vocab: Seq<Seq<char>>, tok: Seq<char>, pos: int)
    ensures
        seg_ids_in_range(spec_split_from(vocab, tok, pos), vocab.len() as int),
    decreases tok.len() - pos,
{
    let segs = spec_split_from(vocab, tok, pos);
    if pos < 0 || pos >= tok.len() {
    } else {
        lemma_best_match_len_upto(vocab, tok, pos, tok.len() - pos);
        let l = best_match_len(vocab, tok, pos);
        if l > 0 {
            let piece = tok.subrange(pos, pos + l);
            let rest = spec_split_from(vocab, tok, pos + l);
            lemma_split_ids_in_range(vocab, tok, pos + l);
            assert(vocab.contains(piece));
            let w = vocab.index_of(piece);
            assert(0 <= w < vocab.len());
            assert(forall|k: int| 1 <= k < segs.len() ==> #[trigger] segs[k] == rest[k - 1]);
        } else {
            let rest = spec_split_from(vocab, tok, pos + 1);
            lemma_split_ids_in_range(vocab, tok, pos + 1);
            assert(forall|k: int| 1 <= k < segs.len() ==> #[trigger] segs[k] == rest[k - 1]);
        }
    }
}

/// `segs` tiles `tok` exactly from position `pos` to the end: each found
/// segment's piece is the very span it consumed, each missing segment
/// consumed exactly one character, and the spans abut with no gap and no
/// overlap.
pub open spec fn covers_from(segs: Seq<SpecSegment>, tok: Seq<char>, pos: int) -> bool
    decreases segs.len(),
{
    if segs.len() == 0 {
        pos == tok.len()
    } else {
        match segs[0] {
            SpecSegment::Found { id: _, piece } => {
                &&& piece.len() > 0
                &&& pos + piece.len() <= tok.len()
                &&& piece == tok.subrange(pos, pos + piece.len())
                &&& covers_from(segs.drop_first(), tok, pos + piece.len())
            },
            SpecSegment::Missing => {
                &&& pos < tok.len()
                &&& covers_from(segs.drop_first(), tok, pos + 1)
            },
        }
    }
}

proof fn lemma_split_covers_from(vocab: Seq<Seq<char>>, tok: Seq<char>, pos: int)
    requires
        0 <= pos <= tok.len(),
    ensures
        covers_from(spec_split_from(vocab, tok, pos), tok, pos),
    decreases tok.len() - pos,
{
    let segs = spec_split_from(vocab, tok, pos);
    if pos >= tok.len() {
    } else {
        lemma_best_match_len_upto(vocab, tok, pos, tok.len() - pos);
        let l = best_match_len(vocab, tok, pos);
        if l > 0 {
            let piece = tok.subrange(pos, pos + l);
            let rest = spec_split_from(vocab, tok, pos + l);
            lemma_split_covers_from(vocab, tok, pos + l);
            assert(segs.drop_first() =~= rest);
        } else {
            let rest = spec_split_from(vocab, tok, pos + 1);
            lemma_split_covers_from(vocab, tok, pos + 1);
            assert(segs.drop_first() =~= rest);
        }
    }
}

/// Total coverage: the segments of the greedy split tile the whole token,
/// from its first character to its last, with no gaps and no overlaps, so
/// concatenating the consumed spans reconstructs the token exactly.
pub proof fn lemma_split_total_coverage(vocab: Seq<Seq<char>>, tok: Seq<char>)
    ensures
        covers_from(spec_split(vocab, tok), tok, 0),
{
    lemma_split_covers_from(vocab, tok, 0);
}

proof fn lemma_split_len_from(vocab: Seq<Seq<char>>, tok: Seq<char>, pos: int)
    requires
        0 <= pos <= tok.len(),
    ensures
        spec_split_from(vocab, tok, pos).len() <= tok.len() - pos,
    decreases tok.len() - pos,
{
    if pos >= tok.len() {
    } else {
        lemma_best_match_len_upto(vocab, tok, pos, tok.len() - pos);
        let l = best_match_len(vocab, tok, pos);
        if l > 0 {
            lemma_split_len_from(vocab, tok, pos + l);
        } else {
            lemma_split_len_from(vocab, tok, pos + 1);
        }
    }
}

/// Termination and progress: the greedy scan makes at least one character of
/// progress at every step, so a token yields at most one segment per
/// character.
pub proof fn lemma_split_progress(vocab: Seq<Seq<char>>, tok: Seq<char>)
    ensures
        spec_split(vocab, tok).len() <= tok.len(),
{
    lemma_split_len_from(vocab, tok, 0);
}

/// Determinism: the segmentation is a function of the vocabulary model and
/// the token alone, so repeated splits of the same token agree segment for
/// segment.
pub proof fn lemma_split_deterministic(
    vocab: Seq<Seq<char>>,
    tok: Seq<char>,
    r1: Seq<SpecSegment>,
    r2: Seq<SpecSegment>,
)
    requires
        r1 == spec_split(vocab, tok),
        r2 == spec_split(vocab, tok),
    ensures
        r1 == r2,
{
}

/// Round-trip enumeration: a successful build models its input exactly (what
/// `new` ensures), and enumeration returns the model exactly (what `to_list`
/// ensures); composed, enumerating a vocabulary built from a valid piece
/// list returns that list unchanged.
pub proof fn lemma_enumeration_round_trip(
    input: Seq<Seq<char>>,
    built: Seq<Seq<char>>,
    listed: Seq<Seq<char>>,
)
    requires
        built == input,
        listed == built,
    ensures
        listed == input,
{
}

/// The position of the first newline in `s`, or -1 when there is none.
pub open spec fn find_newline(s: Seq<char>) -> int
    decreases s.len(),
{
    if s.len() == 0 {
        -1
    } else if s[0] == '\n' {
        0
    } else {
        let r = find_newline(s.drop_first());
        if r < 0 {
            -1
        } else {
            r + 1
        }
    }
}

/// `find_newline` points at the first newline of `s` when one exists, and is
/// negative exactly when none does.
pub proof fn lemma_find_newline(s: Seq<char>)
    ensures
        -1 <= find_newline(s) < s.len(),
        find_newline(s) >= 0 ==> s[find_newline(s)] == '\n',
        forall|k: int| 0 <= k < find_newline(s) ==> #[trigger] s[k] != '\n',
        find_newline(s) < 0 ==> forall|k: int| 0 <= k < s.len() ==> #[trigger] s[k] != '\n',
    decreases s.len(),
{
    if s.len() == 0 {
    } else if s[0] == '\n' {
    } else {
        lemma_find_newline(s.drop_first());
        assert forall|k: int| 0 <= k < find_newline(s) implies #[trigger] s[k] != '\n' by {
            if k >= 1 {
                assert(s.drop_first()[k - 1] == s[k]);
                assert(s.drop_first()[k - 1] != '\n');
            }
        }
        if find_newline(s) < 0 {
            assert forall|k: int| 0 <= k < s.len() implies #[trigger] s[k] != '\n' by {
                if k >= 1 {
                    assert(s.drop_first()[k - 1] == s[k]);
                    assert(s.drop_first()[k - 1] != '\n');
                }
            }
        }
    }
}

/// The lines of `s`: the spans between newline characters, in order.  The
/// span after the last newline is kept only when it is non-empty, so a
/// trailing newline adds no line, while an interior empty line is kept (and
/// later rejected by construction as an empty piece).
pub open spec fn spec_lines(s: Seq<char>) -> Seq<Seq<char>>
    decreases s.len(),
    via spec_lines_decreases
{
    if s.len() == 0 {
        Seq::empty()
    } else {
        let i = find_newline(s);
        if i < 0 {
            seq![s]
        } else {
            seq![s.subrange(0, i)] + spec_lines(s.subrange(i + 1, s.len() as int))
        }
    }
}

#[via_fn]
proof fn spec_lines_decreases(s: Seq<char>) {
    if s.len() != 0 {
        lemma_find_newline(s);
    }
}

/// In a vocabulary with unique pieces, the index of a piece is the only
/// position where it occurs.
pub proof fn lemma_unique_index(vocab: Seq<Seq<char>>, i: int)
    requires
        valid_pieces(vocab),
        0 <= i < vocab.len(),
    ensures
        vocab.index_of(vocab[i]) == i,
{
    assert(vocab.contains(vocab[i]));
    let w = vocab.index_of(vocab[i]);
    if w < i {
        assert(has_duplicate_piece(vocab));
    } else if w > i {
        assert(has_duplicate_piece(vocab));
    }
}

} // verus!

verus! {

/// A construction-time failure: the piece list violated a structural
/// precondition of the vocabulary.
#[derive(Debug, PartialEq, Eq, Structural, Clone, Copy)]
pub enum BuildError {
    /// The piece list holds an empty string.
    EmptyPiece,
    /// The piece list holds the same string twice.
    DuplicatePiece,
}

/// An immutable WordPiece vocabulary: a bidirectional association between
/// piece strings and identifiers.  Identifiers are the 0-based positions in
/// the list the vocabulary was built from.
#[derive(Debug)]
pub struct WordPieceProcessor {
    /// Piece strings in identifier order.
    pieces: Vec<String>,
    /// The same pieces decoded to characters once, for matching.
    piece_chars: Vec<Vec<char>>,
}

impl View for WordPieceProcessor {
    type V = Seq<Seq<char>>;

    closed spec fn view(&self) -> Seq<Seq<char>> {
        self.pieces.deep_view()
    }
}

impl WordPieceProcessor {
    #[verifier::type_invariant]
    spec fn inv(&self) -> bool {
        &&& valid_pieces(self.pieces.deep_view())
        &&& self.pieces.deep_view().len() <= max_piece_count()
        &&& self.piece_chars.deep_view() == self.pieces.deep_view()
    }

    /// Builds a vocabulary from an ordered piece list, assigning each piece
    /// its 0-based position as its identifier.  Construction is rejected,
    /// and nothing is built, when a piece is empty or occurs twice; an empty
    /// piece is reported in preference to a duplicate.
    pub fn new(pieces: Vec<String>) -> (r: Result<WordPieceProcessor, BuildError>)
        requires
            pieces@.len() <= max_piece_count(),
        ensures
            r is Ok <==> valid_pieces(pieces.deep_view()),
            r matches Ok(p) ==> p@ == pieces.deep_view() && valid_pieces(p@),
            r == Err::<WordPieceProcessor, BuildError>(BuildError::EmptyPiece) <==> has_empty_piece(
                pieces.deep_view(),
            ),
            r == Err::<WordPieceProcessor, BuildError>(BuildError::DuplicatePiece) <==> (
            !has_empty_piece(pieces.deep_view()) && has_duplicate_piece(pieces.deep_view())),
    {
        let n = pieces.len();
        let mut i: usize = 0;
        while i < n
            invariant
                i <= n,
                n == pieces@.len(),
                forall|k: int| 0 <= k < i ==> (#[trigger] pieces@[k]@).len() > 0,
            decreases n - i,
        {
            if pieces[i].as_str().is_empty() {
                proof {
                    assert(pieces.deep_view()[i as int].len() == 0);
                }
                return Err(BuildError::EmptyPiece);
            }
            i += 1;
        }
        proof {
            assert(!has_empty_piece(pieces.deep_view())) by {
                assert(forall|k: int|
                    0 <= k < pieces@.len() ==> (#[trigger] pieces.deep_view()[k]).len() > 0);
            }
        }
        i = 0;
        while i < n
            invariant
                i <= n,
                n == pieces@.len(),
                !has_empty_piece(pieces.deep_view()),
                forall|a: int, b: int| 0 <= a < b < n && a < i ==> #[trigger] pieces@[a]@
                    != #[trigger] pieces@[b]@,
            decreases n - i,
        {
            let mut j: usize = i + 1;
            while j < n
                invariant
                    i < j <= n,
                    n == pieces@.len(),
                    !has_empty_piece(pieces.deep_view()),
                    forall|b: int| i < b < j ==> pieces@[i as int]@ != #[trigger] pieces@[b]@,
                decreases n - j,
            {
                if pieces[i] == pieces[j] {
                    proof {
                        assert(pieces.deep_view()[i as int] == pieces.deep_view()[j as int]);
                        assert(has_duplicate_piece(pieces.deep_view()));
                    }
                    return Err(BuildError::DuplicatePiece);
                }
                j += 1;
            }
            i += 1;
        }
        proof {
            assert(!has_duplicate_piece(pieces.deep_view())) by {
                assert(forall|a: int, b: int|
                    0 <= a < b < pieces@.len() ==> #[trigger] pieces.deep_view()[a]
                        != #[trigger] pieces.deep_view()[b]);
            }
        }
        let mut piece_chars: Vec<Vec<char>> = Vec::new();
        i = 0;
        while i < n
            invariant
                i <= n,
                n == pieces@.len(),
                piece_chars@.len() == i,
                forall|k: int| 0 <= k < i ==> #[trigger] piece_chars@[k]@ == pieces@[k]@,
            decreases n - i,
        {
            piece_chars.push(chars_of(pieces[i].as_str()));
            i += 1;
        }
        proof {
            assert(piece_chars.deep_view() =~~= pieces.deep_view());
        }
        Ok(WordPieceProcessor { pieces, piece_chars })
    }

    /// The ordered list of all piece strings in identifier order: a lossless
    /// round trip of the construction input.
    pub fn to_list(&self) -> (r: Vec<String>)
        ensures
            r.deep_view() == self@,
            valid_pieces(self@),
    {
        proof {
            use_type_invariant(self);
        }
        let mut r: Vec<String> = Vec::new();
        let mut i: usize = 0;
        while i < self.pieces.len()
            invariant
                i <= self.pieces@.len(),
                r@.len() == i,
                forall|k: int| 0 <= k < i ==> #[trigger] r@[k]@ == self.pieces@[k]@,
            decreases self.pieces@.len() - i,
        {
            r.push(self.pieces[i].clone());
            i += 1;
        }
        proof {
            assert(r.deep_view() =~= self@);
        }
        r
    }

    /// Looks a candidate piece up verbatim: its identifier when the piece is
    /// in the vocabulary, absent otherwise.
    pub fn get_initial(&self, piece: &str) -> (r: Option<i64>)
        ensures
            valid_pieces(self@),
            match r {
                Some(id) => 0 <= id < self@.len() && self@[id as int] == piece@,
                None => !self@.contains(piece@),
            },
    {
        proof {
            use_type_invariant(self);
        }
        let n = self.pieces.len();
        let mut i: usize = 0;
        while i < n
            invariant
                i <= n,
                n == self@.len(),
                self@.len() <= max_piece_count(),
                valid_pieces(self@),
                self@ == self.pieces.deep_view(),
                forall|k: int| 0 <= k < i ==> #[trigger] self@[k] != piece@,
            decreases n - i,
        {
            if str_eq(self.pieces[i].as_str(), piece) {
                proof {
                    assert(self@[i as int] == piece@);
                }
                return Some(i as i64);
            }
            i += 1;
        }
        None
    }
}

/// The characters of `s`, in order, as a vector.
fn chars_of(s: &str) -> (r: Vec<char>)
    ensures
        r@ == s@,
{
    let n = s.unicode_len();
    let mut r: Vec<char> = Vec::new();
    let mut i: usize = 0;
    while i < n
        invariant
            i <= n,
            n == s@.len(),
            r@.len() == i,
            forall|k: int| 0 <= k < i ==> #[trigger] r@[k] == s@[k],
        decreases n - i,
    {
        r.push(s.get_char(i));
        i += 1;
    }
    proof {
        assert(r@ =~= s@);
    }
    r
}

/// The result of one step of the greedy scan: a matched piece together with
/// its identifier, or a marker that no piece matched and one character was
/// skipped.
#[derive(Debug, Clone, PartialEq, Eq)]
pub enum WordPiece {
    Found { piece: String, idx: u64 },
    Missing,
}

impl View for WordPiece {
    type V = SpecSegment;

    open spec fn view(&self) -> SpecSegment {
        match self {
            WordPiece::Found { piece, idx } => SpecSegment::Found {
                id: *idx as int,
                piece: piece@,
            },
            WordPiece::Missing => SpecSegment::Missing,
        }
    }
}

/// The model of a segmentation result: each segment replaced by its model.
pub open spec fn seg_views(segs: Seq<WordPiece>) -> Seq<SpecSegment> {
    segs.map_values(|w: WordPiece| w@)
}

/// Whether the characters of `m` equal the span of `tok` of the same length
/// starting at `pos`.
fn matches_piece_at(m: &Vec<char>, tok: &Vec<char>, pos: usize) -> (r: bool)
    requires
        pos <= tok@.len(),
    ensures
        r <==> (pos + m@.len() <= tok@.len() && m@ == tok@.subrange(
            pos as int,
            pos + m@.len(),
        )),
{
    let ml = m.len();
    if ml > tok.len() - pos {
        return false;
    }
    let mut k: usize = 0;
    while k < ml
        invariant
            k <= ml,
            ml == m@.len(),
            pos + ml <= tok@.len(),
            tok@.len() <= usize::MAX,
            forall|t: int| 0 <= t < k ==> #[trigger] m@[t] == tok@[pos + t],
        decreases ml - k,
    {
        if m[k] != tok[pos + k] {
            proof {
                assert(m@[k as int] != tok@.subrange(pos as int, pos + m@.len())[k as int]);
            }
            return false;
        }
        k += 1;
    }
    proof {
        assert(m@ =~= tok@.subrange(pos as int, pos + m@.len()));
    }
    true
}

impl WordPieceProcessor {
    /// The longest vocabulary piece matching at `pos`, as its identifier and
    /// its length, or absent when no piece matches there.
    fn longest_match(&self, tok: &Vec<char>, pos: usize) -> (r: Option<(usize, usize)>)
        requires
            pos < tok@.len(),
        ensures
            valid_pieces(self@),
            match r {
                Some(il) => {
                    &&& 0 < il.1
                    &&& pos + il.1 <= tok@.len()
                    &&& il.0 < self@.len()
                    &&& self@[il.0 as int] == tok@.subrange(pos as int, pos + il.1)
                    &&& il.1 == best_match_len(self@, tok@, pos as int)
                },
                None => best_match_len(self@, tok@, pos as int) == 0,
            },
    {
        proof {
            use_type_invariant(self);
            assert(self.piece_chars.deep_view().len() == self.piece_chars@.len());
        }
        let n = self.piece_chars.len();
        let mut best: Option<(usize, usize)> = None;
        let mut i: usize = 0;
        while i < n
            invariant
                i <= n,
                n == self@.len(),
                n == self.piece_chars@.len(),
                valid_pieces(self@),
                self@ == self.pieces.deep_view(),
                self.piece_chars.deep_view() == self@,
                pos < tok@.len(),
                match best {
                    Some(b) => {
                        &&& 0 < b.1
                        &&& pos + b.1 <= tok@.len()
                        &&& b.0 < n
                        &&& self@[b.0 as int] == tok@.subrange(pos as int, pos + b.1)
                        &&& forall|j: int|
                            0 <= j < i && pos + (#[trigger] self@[j]).len() <= tok@.len()
                                && self@[j] == tok@.subrange(
                                pos as int,
                                pos + self@[j].len(),
                            ) ==> self@[j].len() <= b.1
                    },
                    None => forall|j: int|
                        0 <= j < i ==> !(pos + (#[trigger] self@[j]).len() <= tok@.len()
                            && self@[j] == tok@.subrange(pos as int, pos + self@[j].len())),
                },
            decreases n - i,
        {
            let m = &self.piece_chars[i];
            proof {
                assert(m@ == self.piece_chars.deep_view()[i as int]);
            }
            let better = match best {
                Some(b) => m.len() > b.1,
                None => true,
            };
            if better && matches_piece_at(m, tok, pos) {
                proof {
                    assert(self@[i as int].len() > 0) by {
                        if self@[i as int].len() == 0 {
                            assert(has_empty_piece(self@));
                        }
                    }
                }
                best = Some((i, m.len()));
            }
            i += 1;
        }
        proof {
            let vocab = self@;
            let t = tok@;
            let p = pos as int;
            lemma_best_match_len_upto(vocab, t, p, t.len() - p);
            let b = best_match_len(vocab, t, p);
            match best {
                Some(bv) => {
                    let bl = bv.1 as int;
                    assert(vocab.contains(t.subrange(p, p + bl)));
                    assert(piece_matches_at(vocab, t, p, bl));
                    assert(bl <= b);
                    if b > bl {
                        assert(piece_matches_at(vocab, t, p, b));
                        let w = choose|w: int|
                            0 <= w < vocab.len() && vocab[w] == t.subrange(p, p + b);
                        assert(vocab[w].len() == b);
                        assert(false);
                    }
                },
                None => {
                    if b > 0 {
                        assert(piece_matches_at(vocab, t, p, b));
                        let w = choose|w: int|
                            0 <= w < vocab.len() && vocab[w] == t.subrange(p, p + b);
                        assert(vocab[w].len() == b);
                        assert(false);
                    }
                },
            }
        }
        best
    }

    /// Splits a token into a gap-free, overlap-free sequence of segments by
    /// greedy longest-match scanning: the longest matching piece is consumed
    /// at each position, and a missing segment stands for each character at
    /// which no piece matched.
    pub fn split(&self, token: &str) -> (r: Vec<WordPiece>)
        ensures
            valid_pieces(self@),
            seg_views(r@) == spec_split(self@, token@),
            r@.len() <= token@.len(),
            r@.len() == 0 <==> token@.len() == 0,
    {
        proof {
            use_type_invariant(self);
        }
        let tok = chars_of(token);
        let n = tok.len();
        let mut segs: Vec<WordPiece> = Vec::new();
        let mut pos: usize = 0;
        proof {
            assert(seg_views(segs@) =~= Seq::<SpecSegment>::empty());
        }
        while pos < n
            invariant
                pos <= n,
                n == tok@.len(),
                tok@ == token@,
                valid_pieces(self@),
                self@ == self.pieces.deep_view(),
                self.pieces@.len() == self@.len(),
                seg_views(segs@) + spec_split_from(self@, token@, pos as int) == spec_split(
                    self@,
                    token@,
                ),
                segs@.len() <= pos,
            decreases n - pos,
        {
            let ghost old_segs = segs@;
            let ghost p = pos as int;
            match self.longest_match(&tok, pos) {
                Some((idx, len)) => {
                    let piece = self.pieces[idx].clone();
                    segs.push(WordPiece::Found { piece, idx: idx as u64 });
                    pos += len;
                    proof {
                        let vocab = self@;
                        let t = token@;
                        let sub = t.subrange(p, p + len as int);
                        lemma_unique_index(vocab, idx as int);
                        assert(vocab.index_of(sub) == idx as int);
                        assert(segs@.last()@ == SpecSegment::Found { id: idx as int, piece: sub });
                        assert(seg_views(segs@) =~= seg_views(old_segs) + seq![segs@.last()@]);
                        assert(spec_split_from(vocab, t, p) == seq![
                            SpecSegment::Found { id: idx as int, piece: sub },
                        ] + spec_split_from(vocab, t, p + len as int));
                        assert(seg_views(segs@) + spec_split_from(vocab, t, pos as int)
                            =~= spec_split(vocab, t));
                    }
                },
                None => {
                    segs.push(WordPiece::Missing);
                    pos += 1;
                    proof {
                        let vocab = self@;
                        let t = token@;
                        assert(seg_views(segs@) =~= seg_views(old_segs) + seq![
                            SpecSegment::Missing,
                        ]);
                        assert(spec_split_from(vocab, t, p) == seq![SpecSegment::Missing]
                            + spec_split_from(vocab, t, p + 1));
                        assert(seg_views(segs@) + spec_split_from(vocab, t, pos as int)
                            =~= spec_split(vocab, t));
                    }
                },
            }
        }
        proof {
            assert(spec_split_from(self@, token@, pos as int) =~= Seq::<SpecSegment>::empty());
            assert(seg_views(segs@) =~= spec_split(self@, token@));
        }
        segs
    }
}

impl WordPieceProcessor {
    /// Builds a vocabulary from a newline-delimited piece list: line `i`
    /// (0-based) receives identifier `i`.  A trailing newline adds no piece;
    /// an interior empty line is an empty piece and is rejected.
    pub fn from_text(text: &str) -> (r: Result<WordPieceProcessor, BuildError>)
        requires
            text@.len() <= max_piece_count(),
        ensures
            r is Ok <==> valid_pieces(spec_lines(text@)),
            r matches Ok(p) ==> p@ == spec_lines(text@) && valid_pieces(p@),
            r == Err::<WordPieceProcessor, BuildError>(BuildError::EmptyPiece) <==> has_empty_piece(
                spec_lines(text@),
            ),
            r == Err::<WordPieceProcessor, BuildError>(BuildError::DuplicatePiece) <==> (
            !has_empty_piece(spec_lines(text@)) && has_duplicate_piece(spec_lines(text@))),
    {
        let n = text.unicode_len();
        let mut lines: Vec<String> = Vec::new();
        let mut start: usize = 0;
        let mut i: usize = 0;
        proof {
            assert(lines.deep_view() =~= Seq::<Seq<char>>::empty());
            assert(text@.subrange(0, text@.len() as int) =~= text@);
            assert(Seq::<Seq<char>>::empty() + spec_lines(text@) =~= spec_lines(text@));
        }
        while i < n
            invariant
                start <= i <= n,
                n == text@.len(),
                n <= max_piece_count(),
                lines@.len() <= start,
                spec_lines(text@) == lines.deep_view() + spec_lines(
                    text@.subrange(start as int, n as int),
                ),
                forall|k: int| start <= k < i ==> #[trigger] text@[k] != '\n',
            decreases n - i,
        {
            if text.get_char(i) == '\n' {
                proof {
                    let t = text@;
                    let rest = t.subrange(start as int, n as int);
                    lemma_find_newline(rest);
                    assert(forall|k: int|
                        0 <= k < rest.len() ==> #[trigger] rest[k] == t[start + k]);
                    let f = find_newline(rest);
                    let io = i - start;
                    assert(rest[io] == '\n');
                    if f < io {
                        assert(t[start + f] != '\n');
                        assert(false);
                    }
                    if f > io {
                        assert(rest[io] != '\n');
                        assert(false);
                    }
                    assert(spec_lines(rest) == seq![rest.subrange(0, f)] + spec_lines(
                        rest.subrange(f + 1, rest.len() as int),
                    ));
                    assert(rest.subrange(0, f) =~= t.subrange(start as int, i as int));
                    assert(rest.subrange(f + 1, rest.len() as int) =~= t.subrange(
                        i + 1,
                        n as int,
                    ));
                }
                let ghost old_deep = lines.deep_view();
                let line = text.substring_char(start, i);
                lines.push(String::from_str(line));
                proof {
                    let t = text@;
                    assert(lines.deep_view() =~~= old_deep + seq![
                        t.subrange(start as int, i as int),
                    ]);
                    assert(lines.deep_view() + spec_lines(t.subrange(i + 1, n as int))
                        =~~= spec_lines(t));
                }
                start = i + 1;
            }
            i += 1;
        }
        proof {
            let t = text@;
            let rest = t.subrange(start as int, n as int);
            lemma_find_newline(rest);
            assert(forall|k: int| 0 <= k < rest.len() ==> #[trigger] rest[k] == t[start + k]);
            if rest.len() > 0 {
                let f = find_newline(rest);
                if f >= 0 {
                    assert(t[start + f] != '\n');
                    assert(false);
                }
                assert(spec_lines(rest) == seq![rest]);
            } else {
                assert(spec_lines(rest) =~= Seq::<Seq<char>>::empty());
            }
        }
        if start < n {
            let ghost old_deep = lines.deep_view();
            let line = text.substring_char(start, n);
            lines.push(String::from_str(line));
            proof {
                let t = text@;
                assert(lines.deep_view() =~~= old_deep + seq![
                    t.subrange(start as int, n as int),
                ]);
            }
        }
        proof {
            assert(lines.deep_view() + Seq::<Seq<char>>::empty() =~~= lines.deep_view());
            assert(lines.deep_view() =~~= spec_lines(text@));
            assert(lines@.len() == lines.deep_view().len());
        }
        WordPieceProcessor::new(lines)
    }

    /// Encodes a token: splits it greedily and formats the segments as two
    /// parallel sequences, identifiers and display strings.  A found segment
    /// yields its identifier and its piece, with the continuation prefix
    /// `##` prepended to every found piece but the one in first position; a
    /// missing segment yields the sentinel identifier `-1` and no string.
    pub fn encode(&self, token: &str) -> (r: Option<(Vec<i64>, Vec<Option<String>>)>)
        ensures
            valid_pieces(self@),
            r is Some,
            r matches Some(pair) ==> ({
                let segs = spec_split(self@, token@);
                &&& pair.0@.len() == segs.len()
                &&& pair.1@.len() == segs.len()
                &&& forall|k: int|
                    0 <= k < segs.len() ==> pair.0@[k] as int == encoded_id(#[trigger] segs[k])
                &&& forall|k: int|
                    0 <= k < segs.len() ==> pair.1.deep_view()[k] == encoded_piece(
                        #[trigger] segs[k],
                        k,
                    )
            }),
    {
        proof {
            use_type_invariant(self);
        }
        let segs = self.split(token);
        proof {
            lemma_split_ids_in_range(self@, token@, 0);
        }
        let n = segs.len();
        let mut ids: Vec<i64> = Vec::new();
        let mut out: Vec<Option<String>> = Vec::new();
        let mut k: usize = 0;
        while k < n
            invariant
                k <= n,
                n == segs@.len(),
                seg_views(segs@) == spec_split(self@, token@),
                valid_pieces(self@),
                self@.len() <= max_piece_count(),
                seg_ids_in_range(seg_views(segs@), self@.len() as int),
                ids@.len() == k,
                out@.len() == k,
                forall|t: int|
                    0 <= t < k ==> ids@[t] as int == encoded_id(#[trigger] seg_views(segs@)[t]),
                forall|t: int|
                    0 <= t < k ==> out.deep_view()[t] == encoded_piece(
                        #[trigger] seg_views(segs@)[t],
                        t,
                    ),
            decreases n - k,
        {
            proof {
                assert(seg_views(segs@)[k as int] == segs@[k as int]@);
            }
            match &segs[k] {
                WordPiece::Found { piece, idx } => {
                    proof {
                        assert(seg_views(segs@)[k as int] matches SpecSegment::Found { id, .. }
                            && 0 <= id < self@.len());
                    }
                    ids.push(*idx as i64);
                    let display = if k == 0 {
                        piece.clone()
                    } else {
                        proof {
                            reveal_strlit("##");
                            assert("##"@ =~= continuation_prefix());
                        }
                        String::from_str("##").concat(piece.as_str())
                    };
                    out.push(Some(display));
                    proof {
                        assert(out.deep_view()[k as int] == encoded_piece(
                            seg_views(segs@)[k as int],
                            k as int,
                        ));
                    }
                },
                WordPiece::Missing => {
                    ids.push(-1i64);
                    out.push(None);
                    proof {
                        assert(out.deep_view()[k as int] == encoded_piece(
                            seg_views(segs@)[k as int],
                            k as int,
                        ));
                    }
                },
            }
            k += 1;
        }
        Some((ids, out))
    }
}

/// Character-for-character string equality.
fn str_eq(a: &str, b: &str) -> (r: bool)
    ensures
        r == (a@ == b@),
{
    let an = a.unicode_len();
    let bn = b.unicode_len();
    if an != bn {
        return false;
    }
    let mut i: usize = 0;
    while i < an
        invariant
            i <= an,
            an == a@.len(),
            an == b@.len(),
            forall|k: int| 0 <= k < i ==> #[trigger] a@[k] == b@[k],
        decreases an - i,
    {
        if a.get_char(i) != b.get_char(i) {
            return false;
        }
        i += 1;
    }
    proof {
        assert(a@ =~= b@);
    }
    true
}

} // verus!
