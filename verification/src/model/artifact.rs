//! The trained model, read once into plain data.
//!
//! Everything the model half checks comes from the `.model` protobuf: the piece inventory, and
//! the trainer and normalizer settings the run was configured with. Reading the file produces
//! owned, ordinary structs, which is what lets every check downstream be a function over data a
//! test can build by hand.

use sentencepiece_model::SentencePieceModel;
use vstd::prelude::*;

use crate::text::{owned, push_char, push_str, to_chars, str_eq};

verus! {

/// What a piece is for.
#[derive(Debug, Clone, Copy, PartialEq, Eq, Structural)]
pub enum Kind {
    Normal,
    Unknown,
    Control,
    UserDefined,
    Byte,
    /// Present in the file but never emitted.
    Unused,
}

/// Whether pieces of this kind carry surface text worth inspecting.
pub open spec fn inspectable_kind(kind: Kind) -> bool {
    kind == Kind::Normal || kind == Kind::UserDefined
}

impl Kind {
    /// Whether this piece carries surface text worth inspecting.
    ///
    /// `<s>`, `<unk>` and `<0x41>` are machinery rather than text: a check for digit-only or
    /// cross-script pieces that included them would report on its own scaffolding. `Unused` is
    /// excluded too: it cannot be emitted, so a defect in one is unreachable.
    pub fn is_inspectable(self) -> (r: bool)
        ensures
            r == inspectable_kind(self),
    {
        match self {
            Kind::Normal | Kind::UserDefined => true,
            _ => false,
        }
    }
}

/// One vocabulary entry.
#[derive(Debug, Clone)]
pub struct Piece {
    pub text: String,
    pub kind: Kind,
}

impl Piece {
    pub fn new(text: &str, kind: Kind) -> (r: Self)
        ensures
            r.text@ == text@,
            r.kind == kind,
    {
        Piece { text: owned(text), kind }
    }
}

/// SentencePiece writes a word-initial space as U+2581 rather than a literal space.
pub const SPACE_MARKER: char = '\u{2581}';

/// A piece's text with every space marker read as the space it stands for.
pub open spec fn surface_text(text: Seq<char>) -> Seq<char> {
    text.map_values(|c: char| if c == SPACE_MARKER { ' ' } else { c })
}

/// A piece's text with the space marker turned back into the space it stands for.
///
/// Checks that read what a piece says need this; the one check that cares whether the marker
/// is present reads the raw text instead.
pub fn surface(text: &str) -> (r: String)
    ensures
        r@ == surface_text(text@),
{
    let chars = to_chars(text);
    let mut out = String::new();
    let mut i: usize = 0;
    while i < chars.len()
        invariant
            0 <= i <= chars@.len(),
            chars@ == text@,
            out@ == surface_text(text@.take(i as int)),
        decreases chars.len() - i,
    {
        let c = chars[i];
        push_char(&mut out, if c == SPACE_MARKER { ' ' } else { c });
        proof {
            assert(surface_text(text@.take(i + 1)) =~= surface_text(text@.take(i as int)).push(
                if c == SPACE_MARKER { ' ' } else { c },
            ));
        }
        i = i + 1;
    }
    assert(text@.take(i as int) == text@);
    out
}

/// How many pieces are of `kind`.
pub open spec fn count_kind(pieces: Seq<Piece>, kind: Kind) -> nat
    decreases pieces.len(),
{
    if pieces.len() == 0 {
        0
    } else {
        count_kind(pieces.drop_last(), kind) + if pieces.last().kind == kind { 1nat } else { 0nat }
    }
}

/// The pieces whose text is worth inspecting, in order.
pub open spec fn inspectable_pieces(pieces: Seq<Piece>) -> Seq<Piece> {
    pieces.filter(|p: Piece| inspectable_kind(p.kind))
}

/// The piece inventory.
#[derive(Debug, Clone)]
pub struct Vocabulary {
    pieces: Vec<Piece>,
}

impl Vocabulary {
    /// The pieces, in file order.
    pub closed spec fn entries(&self) -> Seq<Piece> {
        self.pieces@
    }

    pub fn new(pieces: Vec<Piece>) -> (r: Self)
        ensures
            r.entries() == pieces@,
    {
        Vocabulary { pieces }
    }

    pub fn len(&self) -> (r: usize)
        ensures
            r == self.entries().len(),
    {
        self.pieces.len()
    }

    pub fn is_empty(&self) -> (r: bool)
        ensures
            r == (self.entries().len() == 0),
    {
        self.pieces.len() == 0
    }

    /// The pieces whose text is worth checking: ordinary and user-defined entries, in order.
    pub fn inspectable(&self) -> (r: Vec<&Piece>)
        ensures
            r@.map_values(|p: &Piece| *p) == inspectable_pieces(self.entries()),
    {
        let ghost pred = |p: Piece| inspectable_kind(p.kind);
        let mut out: Vec<&Piece> = Vec::new();
        let mut i: usize = 0;
        while i < self.pieces.len()
            invariant
                0 <= i <= self.pieces@.len(),
                pred == (|p: Piece| inspectable_kind(p.kind)),
                out@.map_values(|p: &Piece| *p) == self.pieces@.take(i as int).filter(pred),
            decreases self.pieces.len() - i,
        {
            let p = &self.pieces[i];
            proof {
                assert(self.pieces@.take(i + 1).drop_last() == self.pieces@.take(i as int));
                reveal_with_fuel(Seq::filter, 1);
            }
            let ghost before = out@;
            if p.kind.is_inspectable() {
                out.push(p);
                proof {
                    assert(out@.map_values(|p: &Piece| *p) =~= before.map_values(|p: &Piece| *p).push(*p));
                }
            }
            i = i + 1;
        }
        assert(self.pieces@.take(i as int) == self.pieces@);
        out
    }

    /// How many pieces are of `kind`.
    pub fn count_of(&self, kind: Kind) -> (r: usize)
        ensures
            r == count_kind(self.entries(), kind),
    {
        let mut n: usize = 0;
        let mut i: usize = 0;
        while i < self.pieces.len()
            invariant
                0 <= i <= self.pieces@.len(),
                n == count_kind(self.pieces@.take(i as int), kind),
                n <= i,
            decreases self.pieces.len() - i,
        {
            assert(self.pieces@.take(i + 1).drop_last() == self.pieces@.take(i as int));
            if self.pieces[i].kind == kind {
                n = n + 1;
            }
            i = i + 1;
        }
        assert(self.pieces@.take(i as int) == self.pieces@);
        n
    }

    /// Whether a user-defined piece spells `text`. A normal piece that merely happens to spell
    /// it does not count.
    pub fn has_user_defined(&self, text: &str) -> (r: bool)
        ensures
            r == exists|i: int| 0 <= i < self.entries().len() && self.entries()[i].kind == Kind::UserDefined
                && #[trigger] self.entries()[i].text@ == text@,
    {
        let mut i: usize = 0;
        while i < self.pieces.len()
            invariant
                0 <= i <= self.pieces@.len(),
                forall|j: int| 0 <= j < i ==> !(self.pieces@[j].kind == Kind::UserDefined && #[trigger] self.pieces@[j].text@ == text@),
            decreases self.pieces.len() - i,
        {
            if self.pieces[i].kind == Kind::UserDefined && str_eq(self.pieces[i].text.as_str(), text) {
                return true;
            }
            i = i + 1;
        }
        false
    }
}

/// The segmentation algorithm a model was trained with.
#[derive(Debug, Clone, Copy, PartialEq, Eq, Structural)]
pub enum ModelType {
    Unigram,
    Bpe,
    Word,
    Char,
}

/// The trainer settings the model records about its own training run. The character coverage
/// is held as it is reported: rounded to four decimal places.
#[derive(Debug, Clone)]
pub struct Trainer {
    pub model_type: ModelType,
    pub vocab_size: i32,
    pub byte_fallback: bool,
    pub split_digits: bool,
    pub split_by_unicode_script: bool,
    pub max_piece_length: i32,
    /// Lines longer than this many bytes are dropped by the trainer: `max_sentence_length`.
    pub max_line_bytes: usize,
    pub character_coverage: String,
    pub user_defined_symbols: Vec<String>,
}

/// The normalizer settings, which decide what happens to text before it is ever tokenized.
#[derive(Debug, Clone)]
pub struct Normalizer {
    pub rule_name: String,
    /// A compiled character-folding table. Empty is what `identity` produces.
    pub has_charsmap: bool,
    pub add_dummy_prefix: bool,
    pub remove_extra_whitespaces: bool,
}

/// A parsed `.model` file.
///
/// The two spec halves are optional because the protobuf makes them optional. A model without
/// them is readable but unjudgeable on configuration, and the suite skips those checks with the
/// reason rather than assuming defaults.
#[derive(Debug, Clone)]
pub struct Artifact {
    pub vocabulary: Vocabulary,
    pub trainer: Option<Trainer>,
    pub normalizer: Option<Normalizer>,
}

/// Why a model file could not be read.
#[derive(Debug)]
pub enum LoadError {
    /// The file is missing or not a model; `detail` is what the reader said.
    Unreadable { path: String, detail: String },
}

impl LoadError {
    /// What the operator is told.
    pub fn message(&self) -> (r: String)
        ensures
            r@ == match *self {
                LoadError::Unreadable { path, detail } => path@ + ": "@ + detail@,
            },
    {
        match self {
            LoadError::Unreadable { path, detail } => {
                let mut r = owned(path.as_str());
                push_str(&mut r, ": ");
                push_str(&mut r, detail.as_str());
                r
            },
        }
    }
}

/// What a `.model` protobuf records of the trainer, as plain values: the model type as the
/// protobuf's number, the character coverage as the bits of the `f32` it is stored as.
#[derive(Debug, Clone, PartialEq)]
pub struct TrainerFields {
    pub model_type: i32,
    pub vocab_size: i32,
    pub byte_fallback: bool,
    pub split_digits: bool,
    pub split_by_unicode_script: bool,
    pub max_sentencepiece_length: i32,
    pub max_sentence_length: i32,
    pub character_coverage_bits: u32,
    pub user_defined_symbols: Vec<String>,
}

/// What a `.model` protobuf records of the normalizer, as plain values: its rule name, the
/// length of its compiled character map in bytes, and its `add_dummy_prefix` and
/// `remove_extra_whitespaces` switches.
#[derive(Debug, Clone, PartialEq)]
pub struct NormalizerFields(pub String, pub usize, pub bool, pub bool);

/// What a `.model` protobuf holds that the checks read: each piece's text, in file order, and
/// the two optional spec halves. A piece's type is read apart (see [`artifact_from_fields`]).
#[derive(Debug, Clone, PartialEq)]
pub struct ModelFields {
    pub pieces: Vec<String>,
    pub trainer: Option<TrainerFields>,
    pub normalizer: Option<NormalizerFields>,
}

/// What `sentencepiece_model::SentencePieceModel::from_slice` reads from bytes: `None` where the
/// bytes are not a model protobuf.
pub uninterp spec fn decoded_model(bytes: Seq<u8>) -> Option<ModelFields>;

/// `sentencepiece_model::SentencePieceModel::from_slice` (a protobuf decode, a function of the
/// bytes alone), with the fields the checks read copied out one for one through the crate's
/// accessors, which give the protobuf defaults for absent fields. What is decoded is named, not
/// stated.
#[verifier::external_body]
pub fn decode_model(bytes: &[u8]) -> (r: Option<ModelFields>)
    ensures
        r == decoded_model(bytes@),
{
    SentencePieceModel::from_slice(bytes).ok().map(|m| ModelFields {
        pieces: m.pieces().iter().map(|p| p.piece().into()).collect(),
        trainer: m.trainer().map(|t| TrainerFields {
            model_type: t.model_type() as i32,
            vocab_size: t.vocab_size(),
            byte_fallback: t.byte_fallback(),
            split_digits: t.split_digits(),
            split_by_unicode_script: t.split_by_unicode_script(),
            max_sentencepiece_length: t.max_sentencepiece_length(),
            max_sentence_length: t.max_sentence_length(),
            character_coverage_bits: t.character_coverage().to_bits(),
            user_defined_symbols: t.user_defined_symbols.clone(),
        }),
        normalizer: m.normalizer().map(|n| NormalizerFields(n.name().into(), n.precompiled_charsmap().len(), n.add_dummy_prefix(), n.remove_extra_whitespaces())),
    })
}

/// The kind a piece's type number stands for; a number the protobuf does not define reads as
/// `Normal`, the field's default.
pub open spec fn kind_of_number(n: i32) -> Kind {
    if n == 2 {
        Kind::Unknown
    } else if n == 3 {
        Kind::Control
    } else if n == 4 {
        Kind::UserDefined
    } else if n == 5 {
        Kind::Unused
    } else if n == 6 {
        Kind::Byte
    } else {
        Kind::Normal
    }
}

/// The model type a number stands for; a number the protobuf does not define reads as
/// `Unigram`, the field's default.
pub open spec fn model_type_of_number(n: i32) -> ModelType {
    if n == 2 {
        ModelType::Bpe
    } else if n == 3 {
        ModelType::Word
    } else if n == 4 {
        ModelType::Char
    } else {
        ModelType::Unigram
    }
}

fn kind_of(n: i32) -> (r: Kind)
    ensures
        r == kind_of_number(n),
{
    if n == 2 {
        Kind::Unknown
    } else if n == 3 {
        Kind::Control
    } else if n == 4 {
        Kind::UserDefined
    } else if n == 5 {
        Kind::Unused
    } else if n == 6 {
        Kind::Byte
    } else {
        Kind::Normal
    }
}

fn model_type_of(n: i32) -> (r: ModelType)
    ensures
        r == model_type_of_number(n),
{
    if n == 2 {
        ModelType::Bpe
    } else if n == 3 {
        ModelType::Word
    } else if n == 4 {
        ModelType::Char
    } else {
        ModelType::Unigram
    }
}

/// The piece a decoded text and type number stand for.
pub open spec fn piece_is(p: Piece, text: String, kind: i32) -> bool {
    p.text@ == text@ && p.kind == kind_of_number(kind)
}

/// The trainer settings a decoded trainer spec stands for, with the coverage as `coverage`
/// renders it.
pub open spec fn trainer_is(t: Trainer, f: TrainerFields, coverage: Seq<char>) -> bool {
    &&& t.model_type == model_type_of_number(f.model_type)
    &&& t.vocab_size == f.vocab_size
    &&& t.byte_fallback == f.byte_fallback
    &&& t.split_digits == f.split_digits
    &&& t.split_by_unicode_script == f.split_by_unicode_script
    &&& t.max_piece_length == f.max_sentencepiece_length
    &&& t.max_line_bytes == if f.max_sentence_length < 0 { 0 } else { f.max_sentence_length as int }
    &&& t.character_coverage@ == coverage
    &&& t.user_defined_symbols@.map_values(|s: String| s@) == f.user_defined_symbols@.map_values(|s: String| s@)
}

/// The normalizer settings a decoded normalizer spec stands for.
pub open spec fn normalizer_is(n: Normalizer, f: NormalizerFields) -> bool {
    &&& n.rule_name@ == f.0@
    &&& n.has_charsmap == (f.1 > 0)
    &&& n.add_dummy_prefix == f.2
    &&& n.remove_extra_whitespaces == f.3
}

/// The artifact decoded fields stand for, with each piece's type number from `kinds` and the
/// character coverage as `coverage` renders it.
pub open spec fn artifact_is(a: Artifact, f: ModelFields, kinds: Seq<i32>, coverage: Seq<char>) -> bool {
    &&& a.vocabulary.entries().len() == f.pieces@.len()
    &&& forall|k: int| 0 <= k < f.pieces@.len() ==> piece_is(#[trigger] a.vocabulary.entries()[k], f.pieces@[k], kinds[k])
    &&& match (a.trainer, f.trainer) {
        (Some(t), Some(ft)) => trainer_is(t, ft, coverage),
        (None, None) => true,
        _ => false,
    }
    &&& match (a.normalizer, f.normalizer) {
        (Some(n), Some(fnorm)) => normalizer_is(n, fnorm),
        (None, None) => true,
        _ => false,
    }
}

fn copy_all(v: &Vec<String>) -> (r: Vec<String>)
    ensures
        r@.map_values(|s: String| s@) == v@.map_values(|s: String| s@),
{
    let mut r: Vec<String> = Vec::new();
    let mut i: usize = 0;
    while i < v.len()
        invariant
            0 <= i <= v@.len(),
            r@.map_values(|s: String| s@) == v@.take(i as int).map_values(|s: String| s@),
        decreases v.len() - i,
    {
        r.push(owned(v[i].as_str()));
        proof {
            assert(v@.take(i + 1).map_values(|s: String| s@) =~= v@.take(i as int).map_values(|s: String| s@).push(v@[i as int]@));
            assert(r@.map_values(|s: String| s@) =~= v@.take(i + 1).map_values(|s: String| s@));
        }
        i = i + 1;
    }
    assert(v@.take(i as int) =~= v@);
    r
}

/// The artifact that decoded model fields stand for. Each piece's type number is `kinds` at the
/// same place: the protobuf names that field `type`, which is read where raw identifiers may be
/// written. The character coverage is stored as an `f32` and reported rounded to four places;
/// `coverage` is that rendering of `fields.trainer`'s coverage bits.
pub fn artifact_from_fields(fields: &ModelFields, kinds: &[i32], coverage: &str) -> (r: Artifact)
    requires
        kinds@.len() == fields.pieces@.len(),
    ensures
        artifact_is(r, *fields, kinds@, coverage@),
{
    let mut pieces: Vec<Piece> = Vec::new();
    let mut i: usize = 0;
    while i < fields.pieces.len()
        invariant
            0 <= i <= fields.pieces@.len(),
            pieces@.len() == i,
            kinds@.len() == fields.pieces@.len(),
            forall|k: int| 0 <= k < i ==> piece_is(#[trigger] pieces@[k], fields.pieces@[k], kinds@[k]),
        decreases fields.pieces.len() - i,
    {
        pieces.push(Piece::new(fields.pieces[i].as_str(), kind_of(kinds[i])));
        i = i + 1;
    }
    let trainer = match &fields.trainer {
        Some(t) => Some(
            Trainer {
                model_type: model_type_of(t.model_type),
                vocab_size: t.vocab_size,
                byte_fallback: t.byte_fallback,
                split_digits: t.split_digits,
                split_by_unicode_script: t.split_by_unicode_script,
                max_piece_length: t.max_sentencepiece_length,
                max_line_bytes: if t.max_sentence_length < 0 { 0 } else { t.max_sentence_length as usize },
                character_coverage: owned(coverage),
                user_defined_symbols: copy_all(&t.user_defined_symbols),
            },
        ),
        None => None,
    };
    let normalizer = match &fields.normalizer {
        Some(n) => Some(
            Normalizer {
                rule_name: owned(n.0.as_str()),
                has_charsmap: n.1 > 0,
                add_dummy_prefix: n.2,
                remove_extra_whitespaces: n.3,
            },
        ),
        None => None,
    };
    Artifact { vocabulary: Vocabulary::new(pieces), trainer, normalizer }
}

/// The artifact a `.model` file's bytes hold, with the pieces' type numbers `kinds` and the
/// character coverage as `coverage`; `None` where the bytes are not a model, or `kinds` does not
/// give one type number per piece.
pub fn artifact_from_model_bytes(bytes: &[u8], kinds: &[i32], coverage: &str) -> (r: Option<Artifact>)
    ensures
        r is Some <==> (decoded_model(bytes@) matches Some(f) && f.pieces@.len() == kinds@.len()),
        r matches Some(a) ==> artifact_is(a, decoded_model(bytes@)->Some_0, kinds@, coverage@),
{
    match decode_model(bytes) {
        Some(fields) => {
            if fields.pieces.len() == kinds.len() {
                Some(artifact_from_fields(&fields, kinds, coverage))
            } else {
                None
            }
        },
        None => None,
    }
}

} // verus!
