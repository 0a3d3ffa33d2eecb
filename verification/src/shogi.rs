//! The vocabulary of shogi: colours, pieces, hands, squares and moves.

use vstd::prelude::*;

verus! {

/// A player.
#[derive(Clone, Copy, Debug, PartialEq, Eq, Structural, Hash)]
pub enum Color {
    Black,
    White,
}

/// Both players, in the order that [`Color::array_index`] counts them.
pub const COLORS: [Color; 2] = [Color::Black, Color::White];

impl Color {
    /// The other player.
    pub open spec fn other(self) -> Color {
        match self {
            Color::Black => Color::White,
            Color::White => Color::Black,
        }
    }

    /// Black is 0 and White is 1.
    pub open spec fn ix(self) -> int {
        match self {
            Color::Black => 0,
            Color::White => 1,
        }
    }

    pub fn flip(self) -> (r: Color)
        ensures
            r == self.other(),
    {
        match self {
            Color::Black => Color::White,
            Color::White => Color::Black,
        }
    }

    pub fn array_index(self) -> (r: usize)
        ensures
            r == self.ix(),
            r < 2,
    {
        match self {
            Color::Black => 0,
            Color::White => 1,
        }
    }
}

/// What a piece is, promotion counted, whoever owns it.
#[derive(Clone, Copy, Debug, PartialEq, Eq, Structural, Hash)]
pub enum PieceKind {
    Pawn,
    Lance,
    Knight,
    Silver,
    Gold,
    Bishop,
    Rook,
    King,
    ProPawn,
    ProLance,
    ProKnight,
    ProSilver,
    ProBishop,
    ProRook,
}

/// Every kind, in the order that [`PieceKind::array_index`] counts them.
pub const PIECE_KINDS: [PieceKind; 14] = [
    PieceKind::Pawn,
    PieceKind::Lance,
    PieceKind::Knight,
    PieceKind::Silver,
    PieceKind::Gold,
    PieceKind::Bishop,
    PieceKind::Rook,
    PieceKind::King,
    PieceKind::ProPawn,
    PieceKind::ProLance,
    PieceKind::ProKnight,
    PieceKind::ProSilver,
    PieceKind::ProBishop,
    PieceKind::ProRook,
];

/// The kinds that a hand can hold, in the same order.
pub const HAND_KINDS: [PieceKind; 7] = [
    PieceKind::Pawn,
    PieceKind::Lance,
    PieceKind::Knight,
    PieceKind::Silver,
    PieceKind::Gold,
    PieceKind::Bishop,
    PieceKind::Rook,
];

impl PieceKind {
    /// The kind's place among the fourteen.
    pub open spec fn ix(self) -> int {
        match self {
            PieceKind::Pawn => 0,
            PieceKind::Lance => 1,
            PieceKind::Knight => 2,
            PieceKind::Silver => 3,
            PieceKind::Gold => 4,
            PieceKind::Bishop => 5,
            PieceKind::Rook => 6,
            PieceKind::King => 7,
            PieceKind::ProPawn => 8,
            PieceKind::ProLance => 9,
            PieceKind::ProKnight => 10,
            PieceKind::ProSilver => 11,
            PieceKind::ProBishop => 12,
            PieceKind::ProRook => 13,
        }
    }

    /// What the kind becomes by promoting, for the six that can.
    pub open spec fn promoted(self) -> Option<PieceKind> {
        match self {
            PieceKind::Pawn => Some(PieceKind::ProPawn),
            PieceKind::Lance => Some(PieceKind::ProLance),
            PieceKind::Knight => Some(PieceKind::ProKnight),
            PieceKind::Silver => Some(PieceKind::ProSilver),
            PieceKind::Bishop => Some(PieceKind::ProBishop),
            PieceKind::Rook => Some(PieceKind::ProRook),
            _ => None,
        }
    }

    /// The kind that a promoted piece promoted from, and every other kind
    /// itself.
    pub open spec fn base(self) -> PieceKind {
        match self {
            PieceKind::ProPawn => PieceKind::Pawn,
            PieceKind::ProLance => PieceKind::Lance,
            PieceKind::ProKnight => PieceKind::Knight,
            PieceKind::ProSilver => PieceKind::Silver,
            PieceKind::ProBishop => PieceKind::Bishop,
            PieceKind::ProRook => PieceKind::Rook,
            _ => self,
        }
    }

    /// Whether a hand can hold the kind.
    pub open spec fn droppable(self) -> bool {
        self.ix() < 7
    }

    pub fn array_index(self) -> (r: usize)
        ensures
            r == self.ix(),
            r < 14,
    {
        match self {
            PieceKind::Pawn => 0,
            PieceKind::Lance => 1,
            PieceKind::Knight => 2,
            PieceKind::Silver => 3,
            PieceKind::Gold => 4,
            PieceKind::Bishop => 5,
            PieceKind::Rook => 6,
            PieceKind::King => 7,
            PieceKind::ProPawn => 8,
            PieceKind::ProLance => 9,
            PieceKind::ProKnight => 10,
            PieceKind::ProSilver => 11,
            PieceKind::ProBishop => 12,
            PieceKind::ProRook => 13,
        }
    }

    pub fn promote(self) -> (r: Option<PieceKind>)
        ensures
            r == self.promoted(),
    {
        match self {
            PieceKind::Pawn => Some(PieceKind::ProPawn),
            PieceKind::Lance => Some(PieceKind::ProLance),
            PieceKind::Knight => Some(PieceKind::ProKnight),
            PieceKind::Silver => Some(PieceKind::ProSilver),
            PieceKind::Bishop => Some(PieceKind::ProBishop),
            PieceKind::Rook => Some(PieceKind::ProRook),
            _ => None,
        }
    }

    pub fn unpromote(self) -> (r: Option<PieceKind>)
        ensures
            r == (if self.base() == self {
                None
            } else {
                Some(self.base())
            }),
    {
        match self {
            PieceKind::ProPawn => Some(PieceKind::Pawn),
            PieceKind::ProLance => Some(PieceKind::Lance),
            PieceKind::ProKnight => Some(PieceKind::Knight),
            PieceKind::ProSilver => Some(PieceKind::Silver),
            PieceKind::ProBishop => Some(PieceKind::Bishop),
            PieceKind::ProRook => Some(PieceKind::Rook),
            _ => None,
        }
    }

    /// The kind without its promotion.
    pub fn unpromoted(self) -> (r: PieceKind)
        ensures
            r == self.base(),
    {
        match self.unpromote() {
            Some(kind) => kind,
            None => self,
        }
    }
}

/// Promoting and then taking the promotion back gives the kind itself, and a
/// kind that can promote is not promoted already.
pub proof fn law_promotion_is_taken_back(kind: PieceKind)
    requires
        kind.promoted() is Some,
    ensures
        kind.promoted()->0.base() == kind,
        kind.base() == kind,
        kind.droppable(),
{
}

/// A piece and its owner.
#[derive(Clone, Copy, Debug, PartialEq, Eq, Structural, Hash)]
pub struct Piece {
    pub kind: PieceKind,
    pub color: Color,
}

impl Piece {
    pub fn new(kind: PieceKind, color: Color) -> (r: Piece)
        ensures
            r == (Piece { kind, color }),
    {
        Piece { kind, color }
    }

    pub fn piece_kind(self) -> (r: PieceKind)
        ensures
            r == self.kind,
    {
        self.kind
    }

    pub fn color(self) -> (r: Color)
        ensures
            r == self.color,
    {
        self.color
    }
}

/// What one player holds, by kind.
#[derive(Clone, Copy, Debug, PartialEq, Eq, Structural, Hash)]
pub struct Hand {
    pub pawn: u8,
    pub lance: u8,
    pub knight: u8,
    pub silver: u8,
    pub gold: u8,
    pub bishop: u8,
    pub rook: u8,
}

impl Hand {
    /// How many of `kind` are held: none of a kind that no hand can hold.
    pub open spec fn holds(self, kind: PieceKind) -> int {
        match kind {
            PieceKind::Pawn => self.pawn as int,
            PieceKind::Lance => self.lance as int,
            PieceKind::Knight => self.knight as int,
            PieceKind::Silver => self.silver as int,
            PieceKind::Gold => self.gold as int,
            PieceKind::Bishop => self.bishop as int,
            PieceKind::Rook => self.rook as int,
            _ => 0,
        }
    }

    /// The hand with `n` of `kind`, and the rest as it was.
    pub open spec fn with(self, kind: PieceKind, n: int) -> Hand {
        match kind {
            PieceKind::Pawn => Hand { pawn: n as u8, ..self },
            PieceKind::Lance => Hand { lance: n as u8, ..self },
            PieceKind::Knight => Hand { knight: n as u8, ..self },
            PieceKind::Silver => Hand { silver: n as u8, ..self },
            PieceKind::Gold => Hand { gold: n as u8, ..self },
            PieceKind::Bishop => Hand { bishop: n as u8, ..self },
            PieceKind::Rook => Hand { rook: n as u8, ..self },
            _ => self,
        }
    }

    /// An empty hand.
    pub open spec fn nothing() -> Hand {
        Hand { pawn: 0, lance: 0, knight: 0, silver: 0, gold: 0, bishop: 0, rook: 0 }
    }

    pub fn new() -> (r: Hand)
        ensures
            r == Hand::nothing(),
    {
        Hand { pawn: 0, lance: 0, knight: 0, silver: 0, gold: 0, bishop: 0, rook: 0 }
    }

    /// How many of `kind` are held, or `None` of a kind that no hand can hold.
    pub fn count(self, kind: PieceKind) -> (r: Option<u8>)
        ensures
            r == (if kind.droppable() {
                Some(self.holds(kind) as u8)
            } else {
                None
            }),
    {
        match kind {
            PieceKind::Pawn => Some(self.pawn),
            PieceKind::Lance => Some(self.lance),
            PieceKind::Knight => Some(self.knight),
            PieceKind::Silver => Some(self.silver),
            PieceKind::Gold => Some(self.gold),
            PieceKind::Bishop => Some(self.bishop),
            PieceKind::Rook => Some(self.rook),
            _ => None,
        }
    }
}

/// A hand given `n` of a kind holds `n` of it, and of the others what it held.
pub proof fn lemma_hand_with(hand: Hand, kind: PieceKind, n: int, asked: PieceKind)
    requires
        kind.droppable(),
        0 <= n < 256,
    ensures
        hand.with(kind, n).holds(asked) == if asked == kind {
            n
        } else {
            hand.holds(asked)
        },
{
}

/// A square, by its number: files from 1 to 9, nine ranks to a file.
#[derive(Clone, Copy, Debug, PartialEq, Eq, Structural, Hash)]
pub struct Square {
    pub(crate) index: u8,
}

impl Square {
    /// The square's place among the 81: file by file, rank by rank.
    pub closed spec fn ix(self) -> int {
        self.index - 1
    }

    #[verifier::type_invariant]
    pub open spec fn on_board(self) -> bool {
        0 <= self.ix() < 81
    }

    pub open spec fn spec_file(self) -> int {
        self.ix() / 9 + 1
    }

    pub open spec fn spec_rank(self) -> int {
        self.ix() % 9 + 1
    }

    /// The rank as `color` counts it, 1 being the one farthest from its own
    /// camp.
    pub open spec fn rank_for(self, color: Color) -> int {
        match color {
            Color::Black => self.spec_rank(),
            Color::White => 10 - self.spec_rank(),
        }
    }

    pub fn new(file: u8, rank: u8) -> (r: Option<Square>)
        ensures
            r is Some <==> 1 <= file <= 9 && 1 <= rank <= 9,
            r is Some ==> r->0.on_board() && r->0.spec_file() == file && r->0.spec_rank() == rank,
    {
        if file < 1 || file > 9 || rank < 1 || rank > 9 {
            return None;
        }
        let index: u8 = (file - 1) * 9 + rank;
        Some(Square { index })
    }

    /// The square at one of the 81 places.
    pub fn at(place: usize) -> (r: Square)
        requires
            place < 81,
        ensures
            r.ix() == place,
    {
        Square { index: place as u8 + 1 }
    }

    pub fn array_index(self) -> (r: usize)
        ensures
            r == self.ix(),
            r < 81,
    {
        proof {
            use_type_invariant(&self);
        }
        self.index as usize - 1
    }

    pub fn file(self) -> (r: u8)
        ensures
            r == self.spec_file(),
            1 <= r <= 9,
    {
        proof {
            use_type_invariant(&self);
        }
        (self.index - 1) / 9 + 1
    }

    pub fn rank(self) -> (r: u8)
        ensures
            r == self.spec_rank(),
            1 <= r <= 9,
    {
        proof {
            use_type_invariant(&self);
        }
        (self.index - 1) % 9 + 1
    }

    pub fn relative_rank(self, color: Color) -> (r: u8)
        ensures
            r == self.rank_for(color),
            1 <= r <= 9,
    {
        match color {
            Color::Black => self.rank(),
            Color::White => 10 - self.rank(),
        }
    }
}

/// Two squares at one place are the same square.
pub broadcast proof fn lemma_place_names_square(a: Square, b: Square)
    ensures
        #[trigger] a.ix() == #[trigger] b.ix() ==> a == b,
{
}

/// A move: a piece of the board moves, or a piece in hand is dropped.
#[derive(Clone, Copy, Debug, PartialEq, Eq, Structural, Hash)]
pub enum Move {
    Normal { from: Square, to: Square, promote: bool },
    Drop { piece: Piece, to: Square },
}

impl Move {
    /// Whether the squares that the move names are squares of the board.
    pub open spec fn on_board(self) -> bool {
        match self {
            Move::Normal { from, to, .. } => from.on_board() && to.on_board(),
            Move::Drop { to, .. } => to.on_board(),
        }
    }

    pub open spec fn target(self) -> Square {
        match self {
            Move::Normal { to, .. } => to,
            Move::Drop { to, .. } => to,
        }
    }

    /// Where the move starts, for a move that starts on the board.
    pub fn from(self) -> (r: Option<Square>)
        ensures
            r == (match self {
                Move::Normal { from, .. } => Some(from),
                Move::Drop { .. } => None,
            }),
    {
        match self {
            Move::Normal { from, .. } => Some(from),
            Move::Drop { .. } => None,
        }
    }

    /// Where the move ends.
    pub fn to(self) -> (r: Square)
        ensures
            r == self.target(),
    {
        match self {
            Move::Normal { to, .. } => to,
            Move::Drop { to, .. } => to,
        }
    }

    pub fn is_promoting(self) -> (r: bool)
        ensures
            r == (self matches Move::Normal { promote, .. } && promote),
    {
        match self {
            Move::Normal { promote, .. } => promote,
            Move::Drop { .. } => false,
        }
    }
}

/// Why a move breaks the rules.
#[derive(Clone, Copy, Debug, PartialEq, Eq, Structural, Hash)]
pub enum IllegalMoveKind {
    TwoPawns,
    IgnoredCheck,
    DropPawnMate,
    DropStuck,
    NormalStuck,
    GameFinished,
    IncorrectMove,
}

/// The reasons by their number, which begins at 1; the place 0 is not one.
pub const ILLEGAL_KINDS: [IllegalMoveKind; 8] = [
    IllegalMoveKind::IncorrectMove,
    IllegalMoveKind::TwoPawns,
    IllegalMoveKind::IgnoredCheck,
    IllegalMoveKind::DropPawnMate,
    IllegalMoveKind::DropStuck,
    IllegalMoveKind::NormalStuck,
    IllegalMoveKind::GameFinished,
    IllegalMoveKind::IncorrectMove,
];

} // verus!
