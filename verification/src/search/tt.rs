//! Zobrist position keys and the transposition table that search results are kept in.

use std::collections::HashMap;

use vstd::prelude::*;
use vstd::wrapping::u64_specs;

use crate::engine::board::{Color, Move, Piece, PieceType};
use crate::engine::game_state::GameState;

verus! {

broadcast use vstd::std_specs::hash::group_hash_axioms;

#[derive(Debug, Copy, Clone)]
pub enum NodeType {
    Exact,
    LowerBound,
    UpperBound,
}

#[derive(Debug, Copy, Clone)]
pub struct TTEntry {
    pub depth: i32,
    pub score: i32,
    pub node_type: NodeType,
    pub best_move: Option<Move>,
}

/// The SplitMix64 increment.
pub const SPLITMIX_GAMMA: u64 = 0x9E3779B97F4A7C15;

/// The SplitMix64 output function applied to a state.
#[verifier::opaque]
pub open spec fn splitmix_mix(z: u64) -> u64 {
    let z1 = u64_specs::wrapping_mul(z ^ (z >> 30u64), 0xBF58476D1CE4E5B9u64);
    let z2 = u64_specs::wrapping_mul(z1 ^ (z1 >> 27u64), 0x94D049BB133111EBu64);
    z2 ^ (z2 >> 31u64)
}

/// The generator state after `n` draws from `seed`.
pub open spec fn splitmix_state(seed: u64, n: nat) -> u64
    decreases n,
{
    if n == 0 {
        seed
    } else {
        u64_specs::wrapping_add(splitmix_state(seed, (n - 1) as nat), SPLITMIX_GAMMA)
    }
}

/// The `n`-th number (counting from 1) that SplitMix64 draws from `seed`.
pub open spec fn splitmix_draw(seed: u64, n: nat) -> u64 {
    splitmix_mix(splitmix_state(seed, n))
}

struct SplitMix64 {
    state: u64,
}

impl SplitMix64 {
    fn new(seed: u64) -> (r: Self)
        ensures
            r.state == seed,
    {
        Self { state: seed }
    }

    fn next(&mut self) -> (r: u64)
        ensures
            final(self).state == u64_specs::wrapping_add(old(self).state, SPLITMIX_GAMMA),
            r == splitmix_mix(final(self).state),
    {
        reveal(splitmix_mix);
        self.state = self.state.wrapping_add(0x9E3779B97F4A7C15);
        let mut z = self.state;
        z = (z ^ (z >> 30)).wrapping_mul(0xBF58476D1CE4E5B9);
        z = (z ^ (z >> 27)).wrapping_mul(0x94D049BB133111EB);
        z ^ (z >> 31)
    }
}

/// Number of keys: 2 colours x 6 kinds x 64 squares, side to move, 4 castling rights,
/// 8 en passant files.
pub open spec fn zobrist_key_count() -> nat {
    781
}

/// The keys that `Zobrist::new(seed)` draws: draws 1, 2, ... of SplitMix64 from `seed`.
pub open spec fn seeded_keys(seed: u64) -> Seq<u64> {
    Seq::new(zobrist_key_count(), |i: int| splitmix_draw(seed, (i + 1) as nat))
}

/// Index of the key for `piece` on `sq`: colour, then kind, then square.
pub open spec fn piece_key_index(piece: Piece, sq: int) -> int {
    let c = if piece.color == Color::White { 0int } else { 1int };
    let k = match piece.kind {
        PieceType::Pawn => 0int,
        PieceType::Knight => 1,
        PieceType::Bishop => 2,
        PieceType::Rook => 3,
        PieceType::Queen => 4,
        PieceType::King => 5,
    };
    (c * 6 + k) * 64 + sq
}

/// XOR of the keys of the pieces on the first `n` squares.
pub open spec fn board_key(keys: Seq<u64>, b: Seq<Option<Piece>>, n: int) -> u64
    decreases n,
{
    if n <= 0 {
        0
    } else {
        let h = board_key(keys, b, n - 1);
        match b[n - 1] {
            Some(p) => h ^ keys[piece_key_index(p, n - 1)],
            None => h,
        }
    }
}

/// The Zobrist key of a position: pieces, then White to move, the four castling
/// rights, and the file of the en passant square.
pub open spec fn position_key(keys: Seq<u64>, s: GameState) -> u64 {
    let h0 = board_key(keys, s.board@, 64);
    let h1 = if s.side_to_move == Color::White { h0 ^ keys[768] } else { h0 };
    let h2 = if s.castling.white_king_side { h1 ^ keys[769] } else { h1 };
    let h3 = if s.castling.white_queen_side { h2 ^ keys[770] } else { h2 };
    let h4 = if s.castling.black_king_side { h3 ^ keys[771] } else { h3 };
    let h5 = if s.castling.black_queen_side { h4 ^ keys[772] } else { h4 };
    match s.en_passant {
        Some(ep) => h5 ^ keys[773 + ep % 8],
        None => h5,
    }
}

fn draw_piece_keys(rng: &mut SplitMix64, seed: u64) -> (keys: [u64; 768])
    requires
        old(rng).state == seed,
    ensures
        final(rng).state == splitmix_state(seed, 768),
        forall|j: int| 0 <= j < 768 ==> #[trigger] keys@[j] == splitmix_draw(seed, (j + 1) as nat),
{
    let mut keys: [u64; 768] = [0u64; 768];
    let mut i: usize = 0;
    while i < 768
        invariant
            i <= 768,
            rng.state == splitmix_state(seed, i as nat),
            forall|j: int| 0 <= j < i ==> #[trigger] keys@[j] == splitmix_draw(seed, (j + 1) as nat),
        decreases 768 - i,
    {
        keys[i] = rng.next();
        i += 1;
    }
    keys
}

fn draw_file_keys(rng: &mut SplitMix64, seed: u64) -> (keys: [u64; 8])
    requires
        old(rng).state == splitmix_state(seed, 773),
    ensures
        forall|j: int| 0 <= j < 8 ==> #[trigger] keys@[j] == splitmix_draw(seed, (774 + j) as nat),
{
    let mut keys: [u64; 8] = [0u64; 8];
    let mut f: usize = 0;
    while f < 8
        invariant
            f <= 8,
            rng.state == splitmix_state(seed, (773 + f) as nat),
            forall|j: int| 0 <= j < f ==> #[trigger] keys@[j] == splitmix_draw(seed, (774 + j) as nat),
        decreases 8 - f,
    {
        keys[f] = rng.next();
        f += 1;
    }
    keys
}

pub struct Zobrist {
    piece_keys: [u64; 768],
    side_to_move: u64,
    castling: [u64; 4],
    en_passant_file: [u64; 8],
}

impl Zobrist {
    /// All keys in one sequence: the piece keys by colour, kind and square, then the
    /// side-to-move key, the castling keys and the en passant file keys.
    pub closed spec fn keys(self) -> Seq<u64> {
        self.piece_keys@ + seq![self.side_to_move] + self.castling@ + self.en_passant_file@
    }

    pub fn new(seed: u64) -> (r: Self)
        ensures
            r.keys().len() == zobrist_key_count(),
            forall|i: int| 0 <= i < zobrist_key_count() ==> #[trigger] r.keys()[i] == splitmix_draw(seed, (i + 1) as nat),
    {
        let mut rng = SplitMix64::new(seed);
        let piece_keys = draw_piece_keys(&mut rng, seed);
        let side_to_move = rng.next();
        assert(rng.state == splitmix_state(seed, 769));
        let c0 = rng.next();
        assert(rng.state == splitmix_state(seed, 770));
        let c1 = rng.next();
        assert(rng.state == splitmix_state(seed, 771));
        let c2 = rng.next();
        assert(rng.state == splitmix_state(seed, 772));
        let c3 = rng.next();
        assert(rng.state == splitmix_state(seed, 773));
        let castling = [c0, c1, c2, c3];
        let en_passant_file = draw_file_keys(&mut rng, seed);
        let r = Self { piece_keys, side_to_move, castling, en_passant_file };
        proof {
            assert(castling@[0] == splitmix_draw(seed, 770));
            assert(castling@[3] == splitmix_draw(seed, 773));
            assert forall|i: int| 0 <= i < zobrist_key_count() implies #[trigger] r.keys()[i] == splitmix_draw(seed, (i + 1) as nat) by {
                if i < 768 {
                    assert(r.keys()[i] == piece_keys@[i]);
                } else if i == 768 {
                } else if i < 773 {
                    assert(r.keys()[i] == castling@[i - 769]);
                } else {
                    assert(r.keys()[i] == en_passant_file@[i - 773]);
                }
            }
        }
        r
    }

    pub fn hash(&self, state: &GameState) -> (r: u64)
        ensures
            r == position_key(self.keys(), *state),
    {
        let ghost keys = self.keys();
        let ghost b = state.board@;
        let mut key: u64 = 0;
        let mut sq: usize = 0;
        while sq < 64
            invariant
                sq <= 64,
                keys == self.keys(),
                b == state.board@,
                key == board_key(keys, b, sq as int),
            decreases 64 - sq,
        {
            if let Some(p) = state.board[sq] {
                let c: usize = if p.color == Color::White { 0 } else { 1 };
                let k: usize = match p.kind {
                    PieceType::Pawn => 0,
                    PieceType::Knight => 1,
                    PieceType::Bishop => 2,
                    PieceType::Rook => 3,
                    PieceType::Queen => 4,
                    PieceType::King => 5,
                };
                let idx = (c * 6 + k) * 64 + sq;
                assert(keys[idx as int] == self.piece_keys@[idx as int]);
                key ^= self.piece_keys[idx];
            }
            sq += 1;
        }
        if state.side_to_move == Color::White {
            key ^= self.side_to_move;
        }
        if state.castling.white_king_side {
            key ^= self.castling[0];
        }
        if state.castling.white_queen_side {
            key ^= self.castling[1];
        }
        if state.castling.black_king_side {
            key ^= self.castling[2];
        }
        if state.castling.black_queen_side {
            key ^= self.castling[3];
        }
        if let Some(ep_sq) = state.en_passant {
            key ^= self.en_passant_file[ep_sq % 8];
        }
        proof {
            assert(keys[768] == self.side_to_move);
            assert(keys[769] == self.castling@[0]);
            assert(keys[770] == self.castling@[1]);
            assert(keys[771] == self.castling@[2]);
            assert(keys[772] == self.castling@[3]);
            if let Some(ep) = state.en_passant {
                assert(keys[773 + ep % 8] == self.en_passant_file@[(ep % 8) as int]);
            }
        }
        key
    }
}

/// What the table holds for `key`, if anything.
pub open spec fn table_lookup(t: Map<u64, TTEntry>, key: u64) -> Option<TTEntry> {
    if t.contains_key(key) {
        Some(t[key])
    } else {
        None
    }
}

pub struct TranspositionTable {
    entries: HashMap<u64, TTEntry>,
}

impl View for TranspositionTable {
    type V = Map<u64, TTEntry>;

    closed spec fn view(&self) -> Map<u64, TTEntry> {
        self.entries@
    }
}

impl TranspositionTable {
    pub fn new() -> (r: Self)
        ensures
            r@ == Map::<u64, TTEntry>::empty(),
    {
        Self { entries: HashMap::new() }
    }

    pub fn get(&self, key: u64) -> (r: Option<TTEntry>)
        ensures
            r == table_lookup(self@, key),
    {
        match self.entries.get(&key) {
            Some(e) => Some(*e),
            None => None,
        }
    }

    pub fn insert(&mut self, key: u64, entry: TTEntry)
        ensures
            final(self)@ == old(self)@.insert(key, entry),
    {
        self.entries.insert(key, entry);
    }
}

/// Law: reading a key gives back the entry last written under it, and writing one
/// key leaves every other key's entry as it was.
pub proof fn law_table_read_after_write(t: Map<u64, TTEntry>, key: u64, entry: TTEntry, other: u64)
    ensures
        table_lookup(t.insert(key, entry), key) == Some(entry),
        other != key ==> table_lookup(t.insert(key, entry), other) == table_lookup(t, other),
{
}

} // verus!
