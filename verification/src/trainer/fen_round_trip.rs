//! Reading back what the FEN writer writes: for every position whose en passant square,
//! if any, is on the board, `fen_parse` of `fen_text` gives that position again.

use vstd::prelude::*;

use crate::engine::board::{square_text, Color, Piece};
use crate::engine::fen::{
    board_of_field, castling_of_text, empty_board, fen_parse, holds_position, piece_of_char, rank_scan,
    ranks_scan, square_of_text,
};
use crate::engine::game_state::{CastlingRights, GameState};
use crate::trainer::{castling_text, fen_char, fen_text, rank_text_from, ranks_text, run_text};
use crate::text::{
    all_digits, ascii_digit, decimal_value, nat_text, natural_of_text, split_on, split_on_from, split_ws, split_ws_from,
    u32_of_text, utf8_len, whitespace, char_utf8_len,
};

verus! {

/// `fields` joined with `sep` between each two of them.
pub open spec fn join(fields: Seq<Seq<char>>, sep: char) -> Seq<char>
    decreases fields.len(),
{
    if fields.len() == 0 {
        Seq::empty()
    } else if fields.len() == 1 {
        fields[0]
    } else {
        fields[0] + seq![sep] + join(fields.drop_first(), sep)
    }
}

/// Scanning a stretch of `n` characters none of which is white space only extends the
/// field under construction.
proof fn lemma_ws_run(s: Seq<char>, i: int, cur: Seq<char>, acc: Seq<Seq<char>>, n: int)
    requires
        0 <= i,
        0 <= n,
        i + n <= s.len(),
        forall|k: int| i <= k < i + n ==> !whitespace(#[trigger] s[k]),
    ensures
        split_ws_from(s, i, cur, acc) == split_ws_from(s, i + n, cur + s.subrange(i, i + n), acc),
    decreases n,
{
    if n == 0 {
        assert(cur + s.subrange(i, i) =~= cur);
    } else {
        lemma_ws_run(s, i + 1, cur.push(s[i]), acc, n - 1);
        assert(cur.push(s[i]) + s.subrange(i + 1, i + n) =~= cur + s.subrange(i, i + n));
    }
}

/// Splitting at white space a text of non-empty fields without white space, joined by
/// single spaces, gives the fields back.
pub proof fn lemma_split_ws_join(s: Seq<char>, i: int, acc: Seq<Seq<char>>, fields: Seq<Seq<char>>)
    requires
        0 <= i <= s.len(),
        fields.len() > 0,
        s.subrange(i, s.len() as int) == join(fields, ' '),
        forall|f: int| 0 <= f < fields.len() ==> (#[trigger] fields[f]).len() > 0,
        forall|f: int, k: int|
            0 <= f < fields.len() && 0 <= k < fields[f].len() ==> !whitespace(#[trigger] fields[f][k]),
    ensures
        split_ws_from(s, i, Seq::empty(), acc) == acc + fields,
    decreases fields.len(),
{
    let f0 = fields[0];
    let n = f0.len() as int;
    let t = s.subrange(i, s.len() as int);
    if fields.len() > 1 {
        assert(t =~= f0 + seq![' '] + join(fields.drop_first(), ' '));
    }
    assert(n <= t.len());
    assert forall|k: int| i <= k < i + n implies !whitespace(#[trigger] s[k]) by {
        assert(s[k] == s.subrange(i, s.len() as int)[k - i]);
        assert(fields[0][k - i] == f0[k - i]);
    }
    if fields.len() == 1 {
        assert(i + n == s.len());
        lemma_ws_run(s, i, Seq::empty(), acc, n);
        assert(Seq::<char>::empty() + s.subrange(i, i + n) =~= f0);
        assert(acc.push(f0) =~= acc + fields);
    } else {
        assert(s.subrange(i, s.len() as int) =~= f0 + seq![' '] + join(fields.drop_first(), ' '));
        assert(i + n < s.len());
        lemma_ws_run(s, i, Seq::empty(), acc, n);
        assert(Seq::<char>::empty() + s.subrange(i, i + n) =~= f0);
        assert(s[i + n] == s.subrange(i, s.len() as int)[n]);
        assert(s[i + n] == ' ');
        let rest = join(fields.drop_first(), ' ');
        assert(rest.len() == t.len() - n - 1);
        assert forall|k: int| 0 <= k < rest.len() implies s.subrange(i + n + 1, s.len() as int)[k] == rest[k] by {
            assert(s[i + n + 1 + k] == t[n + 1 + k]);
        }
        assert(s.subrange(i + n + 1, s.len() as int) =~= rest);
        lemma_split_ws_join(s, i + n + 1, acc.push(f0), fields.drop_first());
        assert(acc.push(f0) + fields.drop_first() =~= acc + fields);
    }
}

/// Scanning a stretch of `n` characters none of which is `sep` only extends the piece
/// under construction.
proof fn lemma_sep_run(s: Seq<char>, sep: char, i: int, cur: Seq<char>, acc: Seq<Seq<char>>, n: int)
    requires
        0 <= i,
        0 <= n,
        i + n <= s.len(),
        forall|k: int| i <= k < i + n ==> #[trigger] s[k] != sep,
    ensures
        split_on_from(s, sep, i, cur, acc) == split_on_from(s, sep, i + n, cur + s.subrange(i, i + n), acc),
    decreases n,
{
    if n == 0 {
        assert(cur + s.subrange(i, i) =~= cur);
    } else {
        lemma_sep_run(s, sep, i + 1, cur.push(s[i]), acc, n - 1);
        assert(cur.push(s[i]) + s.subrange(i + 1, i + n) =~= cur + s.subrange(i, i + n));
    }
}

/// Splitting at `sep` a text of pieces without `sep`, joined by `sep`, gives the pieces back.
pub proof fn lemma_split_on_join(s: Seq<char>, sep: char, i: int, acc: Seq<Seq<char>>, fields: Seq<Seq<char>>)
    requires
        0 <= i <= s.len(),
        fields.len() > 0,
        s.subrange(i, s.len() as int) == join(fields, sep),
        forall|f: int, k: int|
            0 <= f < fields.len() && 0 <= k < fields[f].len() ==> #[trigger] fields[f][k] != sep,
    ensures
        split_on_from(s, sep, i, Seq::empty(), acc) == acc + fields,
    decreases fields.len(),
{
    let f0 = fields[0];
    let n = f0.len() as int;
    let t = s.subrange(i, s.len() as int);
    if fields.len() > 1 {
        assert(t =~= f0 + seq![sep] + join(fields.drop_first(), sep));
    }
    assert(n <= t.len());
    assert forall|k: int| i <= k < i + n implies #[trigger] s[k] != sep by {
        assert(s[k] == s.subrange(i, s.len() as int)[k - i]);
        assert(fields[0][k - i] == f0[k - i]);
    }
    if fields.len() == 1 {
        assert(i + n == s.len());
        lemma_sep_run(s, sep, i, Seq::empty(), acc, n);
        assert(Seq::<char>::empty() + s.subrange(i, i + n) =~= f0);
        assert(acc.push(f0) =~= acc + fields);
    } else {
        assert(s.subrange(i, s.len() as int) =~= f0 + seq![sep] + join(fields.drop_first(), sep));
        assert(i + n < s.len());
        lemma_sep_run(s, sep, i, Seq::empty(), acc, n);
        assert(Seq::<char>::empty() + s.subrange(i, i + n) =~= f0);
        assert(s[i + n] == s.subrange(i, s.len() as int)[n]);
        let rest = join(fields.drop_first(), sep);
        assert(rest.len() == t.len() - n - 1);
        assert forall|k: int| 0 <= k < rest.len() implies s.subrange(i + n + 1, s.len() as int)[k] == rest[k] by {
            assert(s[i + n + 1 + k] == t[n + 1 + k]);
        }
        assert(s.subrange(i + n + 1, s.len() as int) =~= rest);
        lemma_split_on_join(s, sep, i + n + 1, acc.push(f0), fields.drop_first());
        assert(acc.push(f0) + fields.drop_first() =~= acc + fields);
    }
}

/// The decimal text of `n` reads back as `n`.
pub proof fn lemma_nat_text_reads_back(n: nat)
    ensures
        nat_text(n).len() > 0,
        all_digits(nat_text(n)),
        decimal_value(nat_text(n)) == n,
    decreases n,
{
    let c = ((n % 10) + 48) as char;
    assert(c as int == (n % 10) + 48);
    if n < 10 {
        assert(nat_text(n).drop_last() =~= Seq::<char>::empty());
        assert(nat_text(n).last() == c);
        assert(decimal_value(Seq::<char>::empty()) == 0);
        assert(crate::text::digit_value(c) == n);
        assert(decimal_value(nat_text(n)) == n);
    }
    if n >= 10 {
        lemma_nat_text_reads_back(n / 10);
        let t = nat_text(n);
        assert(t.drop_last() =~= nat_text(n / 10));
        assert(t.last() == c);
        assert(crate::text::digit_value(c) == n % 10);
        assert(decimal_value(t) == decimal_value(nat_text(n / 10)) * 10 + n % 10);
        assert forall|i: int| 0 <= i < t.len() implies ascii_digit(#[trigger] t[i]) by {
            if i < t.len() - 1 {
                assert(t[i] == nat_text(n / 10)[i]);
            }
        }
    }
}

/// `u32::from_str` reads the decimal text of a `u32` back.
pub proof fn lemma_u32_text_reads_back(n: u32)
    ensures
        u32_of_text(nat_text(n as nat)) == Some(n),
{
    lemma_nat_text_reads_back(n as nat);
    let t = nat_text(n as nat);
    assert(ascii_digit(t[0]));
    assert(natural_of_text(t, u32::MAX as int) == Some(n as int));
}

/// A character of a rank of the FEN board field: a count of empty squares or a piece letter.
pub open spec fn rank_char(c: char) -> bool {
    ('1' <= c <= '8') || ('a' <= c <= 'z') || ('A' <= c <= 'Z')
}

/// The letter of a piece reads back as that piece.
pub proof fn lemma_fen_char_reads_back(p: Piece)
    ensures
        piece_of_char(fen_char(p)) == Some(p),
        !ascii_digit(fen_char(p)),
        rank_char(fen_char(p)),
{
}

/// Law: exactly the letters `pnbrqk` and `PNBRQK` name pieces, upper case for White,
/// and the letter written for a piece reads back as that piece.
pub proof fn law_piece_letters(c: char, p: Piece)
    ensures
        piece_of_char(c) is Some <==> (c == 'p' || c == 'n' || c == 'b' || c == 'r' || c == 'q' || c == 'k'
            || c == 'P' || c == 'N' || c == 'B' || c == 'R' || c == 'Q' || c == 'K'),
        piece_of_char(c) matches Some(q) ==> (q.color == Color::White <==> 'A' <= c <= 'Z'),
        piece_of_char(fen_char(p)) == Some(p),
{
    lemma_fen_char_reads_back(p);
}

/// The text of a rank from `file` on, after a run of `empty` empty squares, is made of
/// rank characters, and is not empty when any square is left to describe.
proof fn lemma_rank_text_chars(b: Seq<Option<Piece>>, r: int, file: int, empty: int)
    requires
        0 <= empty <= file <= 8,
    ensures
        forall|k: int| 0 <= k < rank_text_from(b, r, file, empty).len() ==> rank_char(
            #[trigger] rank_text_from(b, r, file, empty)[k],
        ),
        empty + 8 - file > 0 ==> rank_text_from(b, r, file, empty).len() > 0,
    decreases 8 - file,
{
    let t = rank_text_from(b, r, file, empty);
    if file < 8 {
        match b[r * 8 + file] {
            Some(p) => {
                lemma_rank_text_chars(b, r, file + 1, 0);
                lemma_fen_char_reads_back(p);
                let rest = rank_text_from(b, r, file + 1, 0);
                let head = run_text(empty) + seq![fen_char(p)];
                assert(t == head + rest);
                assert forall|k: int| 0 <= k < t.len() implies rank_char(#[trigger] t[k]) by {
                    if k >= head.len() {
                        assert(t[k] == rest[k - head.len()]);
                    }
                }
            },
            None => {
                lemma_rank_text_chars(b, r, file + 1, empty + 1);
            },
        }
    }
}

/// The board `acc` with the pieces of rank `r` of `b` from file `f` on put in.
pub open spec fn rank_fill(acc: Seq<Option<Piece>>, b: Seq<Option<Piece>>, r: int, f: int) -> Seq<Option<Piece>>
    decreases 8 - f,
{
    if f >= 8 {
        acc
    } else {
        let sq = r * 8 + f;
        rank_fill(if b[sq] is Some { acc.update(sq, b[sq]) } else { acc }, b, r, f + 1)
    }
}

proof fn lemma_rank_fill(acc: Seq<Option<Piece>>, b: Seq<Option<Piece>>, r: int, f: int)
    requires
        acc.len() == 64,
        0 <= r < 8,
        0 <= f <= 8,
    ensures
        rank_fill(acc, b, r, f).len() == 64,
        forall|k: int| 0 <= k < 64 ==> #[trigger] rank_fill(acc, b, r, f)[k] == if r * 8 + f <= k < r * 8 + 8
            && b[k] is Some {
            b[k]
        } else {
            acc[k]
        },
    decreases 8 - f,
{
    if f < 8 {
        let sq = r * 8 + f;
        let next = if b[sq] is Some { acc.update(sq, b[sq]) } else { acc };
        lemma_rank_fill(next, b, r, f + 1);
    }
}

/// Reading a rank's text gives the rank's pieces: from position `j` of `row`, where
/// the text from `file` on with a pending run of `empty` empty squares stands, the
/// reader at file `file - empty` puts the remaining pieces of the rank into `acc`.
proof fn lemma_rank_reads_back(
    acc: Seq<Option<Piece>>,
    b: Seq<Option<Piece>>,
    row: Seq<char>,
    r: int,
    j: int,
    file: int,
    empty: int,
)
    requires
        0 <= r < 8,
        b.len() == 64,
        acc.len() == 64,
        0 <= empty <= file <= 8,
        0 <= j <= row.len(),
        row.subrange(j, row.len() as int) == rank_text_from(b, r, file, empty),
    ensures
        rank_scan(acc, row, r, j, file - empty) == Ok::<Seq<Option<Piece>>, Seq<char>>(rank_fill(acc, b, r, file)),
    decreases 8 - file,
{
    let t = row.subrange(j, row.len() as int);
    if file >= 8 {
        if empty > 0 {
            assert(t == seq![(48 + empty) as char]);
            assert(row[j] == t[0]);
            assert(ascii_digit(row[j]));
            assert(rank_scan(acc, row, r, j + 1, 8) == Ok::<Seq<Option<Piece>>, Seq<char>>(acc));
        }
    } else {
        let sq = r * 8 + file;
        match b[sq] {
            Some(p) => {
                let j1 = if empty > 0 { j + 1 } else { j };
                lemma_fen_char_reads_back(p);
                let rest = rank_text_from(b, r, file + 1, 0);
                assert(t == run_text(empty) + seq![fen_char(p)] + rest);
                if empty > 0 {
                    assert(row[j] == t[0]);
                    assert(ascii_digit(row[j]));
                    assert(crate::text::digit_value(row[j]) == empty);
                    assert(rank_scan(acc, row, r, j, file - empty) == rank_scan(acc, row, r, j + 1, file));
                }
                assert(row[j1] == t[j1 - j]);
                assert(row[j1] == fen_char(p));
                assert forall|k: int| 0 <= k < rest.len() implies row.subrange(j1 + 1, row.len() as int)[k]
                    == rest[k] by {
                    assert(row[j1 + 1 + k] == t[j1 + 1 + k - j]);
                }
                assert(row.subrange(j1 + 1, row.len() as int) =~= rest);
                let acc2 = acc.update(sq, Some(p));
                lemma_rank_reads_back(acc2, b, row, r, j1 + 1, file + 1, 0);
                assert(rank_scan(acc, row, r, j1, file) == rank_scan(acc2, row, r, j1 + 1, file + 1));
            },
            None => {
                lemma_rank_reads_back(acc, b, row, r, j, file + 1, empty + 1);
            },
        }
    }
}

/// The texts of the ranks `r` down to the first, in that order.
pub open spec fn rank_texts(b: Seq<Option<Piece>>, r: int) -> Seq<Seq<char>> {
    Seq::new((r + 1) as nat, |i: int| rank_text_from(b, r - i, 0, 0))
}

/// The board field is the rank texts joined by `/`.
proof fn lemma_ranks_text_join(b: Seq<Option<Piece>>, r: int)
    requires
        0 <= r <= 7,
    ensures
        ranks_text(b, r) == join(rank_texts(b, r), '/'),
    decreases r,
{
    if r > 0 {
        lemma_ranks_text_join(b, r - 1);
        assert(rank_texts(b, r).drop_first() =~= rank_texts(b, r - 1));
    }
}

/// Reading ranks `i..8` of the board field (rank `7 - i` first) puts their pieces into `acc`.
proof fn lemma_ranks_read_back(acc: Seq<Option<Piece>>, b: Seq<Option<Piece>>, ranks: Seq<Seq<char>>, i: int)
    requires
        0 <= i <= 8,
        acc.len() == 64,
        b.len() == 64,
        ranks.len() == 8,
        forall|k: int| i <= k < 8 ==> #[trigger] ranks[k] == rank_text_from(b, 7 - k, 0, 0),
    ensures
        ranks_scan(acc, ranks, i) == Ok::<Seq<Option<Piece>>, Seq<char>>(
            Seq::new(64, |k: int| if k < (8 - i) * 8 && b[k] is Some { b[k] } else { acc[k] }),
        ),
    decreases 8 - i,
{
    let want = Seq::new(64, |k: int| if k < (8 - i) * 8 && b[k] is Some { b[k] } else { acc[k] });
    if i >= 8 {
        assert(want =~= acc);
    } else {
        let row = ranks[i];
        assert(row.subrange(0, row.len() as int) =~= row);
        lemma_rank_reads_back(acc, b, row, 7 - i, 0, 0, 0);
        let acc2 = rank_fill(acc, b, 7 - i, 0);
        lemma_rank_fill(acc, b, 7 - i, 0);
        lemma_ranks_read_back(acc2, b, ranks, i + 1);
        let got = Seq::new(64, |k: int| if k < (7 - i) * 8 && b[k] is Some { b[k] } else { acc2[k] });
        assert(got =~= want);
    }
}

/// The characters of the board field: rank characters and `/`, and it is not empty.
proof fn lemma_board_text_chars(b: Seq<Option<Piece>>, r: int)
    requires
        0 <= r <= 7,
    ensures
        ranks_text(b, r).len() > 0,
        forall|k: int| 0 <= k < ranks_text(b, r).len() ==> (rank_char(#[trigger] ranks_text(b, r)[k])
            || ranks_text(b, r)[k] == '/'),
    decreases r,
{
    lemma_rank_text_chars(b, r, 0, 0);
    let head = rank_text_from(b, r, 0, 0);
    if r > 0 {
        lemma_board_text_chars(b, r - 1);
        let rest = ranks_text(b, r - 1);
        let t = ranks_text(b, r);
        assert(t == head + seq!['/'] + rest);
        assert forall|k: int| 0 <= k < t.len() implies (rank_char(#[trigger] t[k]) || t[k] == '/') by {
            if k < head.len() {
                assert(t[k] == head[k]);
            } else if k > head.len() {
                assert(t[k] == rest[k - head.len() - 1]);
            }
        }
    }
}

/// The board field of a board reads back as that board.
pub proof fn lemma_board_reads_back(b: Seq<Option<Piece>>)
    requires
        b.len() == 64,
    ensures
        board_of_field(ranks_text(b, 7)) == Ok::<Seq<Option<Piece>>, Seq<char>>(b),
{
    let text = ranks_text(b, 7);
    let fields = rank_texts(b, 7);
    lemma_ranks_text_join(b, 7);
    assert forall|f: int, k: int| 0 <= f < fields.len() && 0 <= k < fields[f].len() implies #[trigger] fields[f][k]
        != '/' by {
        lemma_rank_text_chars(b, 7 - f, 0, 0);
        assert(rank_char(fields[f][k]));
    }
    assert(text.subrange(0, text.len() as int) =~= text);
    lemma_split_on_join(text, '/', 0, Seq::empty(), fields);
    assert(Seq::<Seq<char>>::empty() + fields =~= fields);
    let ranks = split_on(text, '/');
    assert(ranks == fields);
    lemma_ranks_read_back(empty_board(), b, ranks, 0);
    let got = Seq::new(64, |k: int| if k < 64 && b[k] is Some { b[k] } else { empty_board()[k] });
    assert(got =~= b);
}

/// The castling field reads back as the rights it was written from, and it is made of
/// `KQkq` letters or a lone `-`.
proof fn lemma_castling_reads_back(c: CastlingRights)
    ensures
        castling_of_text(castling_text(c)) == c,
        castling_text(c).len() > 0,
        forall|k: int| 0 <= k < castling_text(c).len() ==> !whitespace(#[trigger] castling_text(c)[k]),
{
    let t = castling_text(c);
    let wk = if c.white_king_side { seq!['K'] } else { Seq::<char>::empty() };
    let wq = if c.white_queen_side { seq!['Q'] } else { Seq::<char>::empty() };
    let bk = if c.black_king_side { seq!['k'] } else { Seq::<char>::empty() };
    let bq = if c.black_queen_side { seq!['q'] } else { Seq::<char>::empty() };
    let all = wk + wq + bk + bq;
    assert forall|k: int| 0 <= k < all.len() implies (#[trigger] all[k] == 'K' && c.white_king_side) || (all[k]
        == 'Q' && c.white_queen_side) || (all[k] == 'k' && c.black_king_side) || (all[k] == 'q'
        && c.black_queen_side) by {
        if k < wk.len() {
            assert(all[k] == wk[k]);
        } else if k < wk.len() + wq.len() {
            assert(all[k] == wq[k - wk.len()]);
        } else if k < wk.len() + wq.len() + bk.len() {
            assert(all[k] == bk[k - wk.len() - wq.len()]);
        } else {
            assert(all[k] == bq[k - wk.len() - wq.len() - bk.len()]);
        }
    }
    if c.white_king_side {
        assert(all[0] == 'K');
    }
    if c.white_queen_side {
        assert(all[wk.len() as int] == 'Q');
    }
    if c.black_king_side {
        assert(all[(wk.len() + wq.len()) as int] == 'k');
    }
    if c.black_queen_side {
        assert(all[(wk.len() + wq.len() + bk.len()) as int] == 'q');
    }
    if all.len() == 0 {
        assert(t == seq!['-']);
        assert(!t.contains('K') && !t.contains('Q') && !t.contains('k') && !t.contains('q'));
    } else {
        assert(t == all);
    }
}

/// The name of a square on the board reads back as that square.
proof fn lemma_square_text_reads_back(sq: int)
    requires
        0 <= sq < 64,
    ensures
        square_of_text(square_text(sq)) == Ok::<usize, Seq<char>>(sq as usize),
        square_text(sq).len() == 2,
        forall|k: int| 0 <= k < 2 ==> !whitespace(#[trigger] square_text(sq)[k]),
{
    let t = square_text(sq);
    assert(t.drop_last().drop_last() =~= Seq::<char>::empty());
    assert(utf8_len(Seq::<char>::empty()) == 0);
    assert(t[0] as int == 97 + sq % 8);
    assert(t[1] as int == 49 + sq / 8);
    assert(t.drop_last().last() == t[0]);
    assert(char_utf8_len(t[0]) == 1);
    assert(char_utf8_len(t[1]) == 1);
    assert(utf8_len(t.drop_last()) == 1);
    assert(utf8_len(t) == 2);
}

/// The six fields of the FEN text of `s`.
pub open spec fn fen_fields(s: GameState) -> Seq<Seq<char>> {
    seq![
        ranks_text(s.board@, 7),
        if s.side_to_move == Color::White { seq!['w'] } else { seq!['b'] },
        castling_text(s.castling),
        match s.en_passant {
            Some(sq) => square_text(sq as int),
            None => seq!['-'],
        },
        nat_text(s.halfmove_clock as nat),
        nat_text(s.fullmove_number as nat),
    ]
}

proof fn lemma_join_six(a: Seq<char>, b: Seq<char>, c: Seq<char>, d: Seq<char>, e: Seq<char>, f: Seq<char>)
    ensures
        join(seq![a, b, c, d, e, f], ' ') == a + seq![' '] + b + seq![' '] + c + seq![' '] + d + seq![' '] + e
            + seq![' '] + f,
{
    let s6 = seq![a, b, c, d, e, f];
    let s5 = seq![b, c, d, e, f];
    let s4 = seq![c, d, e, f];
    let s3 = seq![d, e, f];
    let s2 = seq![e, f];
    let s1 = seq![f];
    assert(s6.drop_first() =~= s5);
    assert(s5.drop_first() =~= s4);
    assert(s4.drop_first() =~= s3);
    assert(s3.drop_first() =~= s2);
    assert(s2.drop_first() =~= s1);
    assert(join(s1, ' ') == f);
    assert(join(s2, ' ') == e + seq![' '] + f);
    assert(join(s3, ' ') == d + seq![' '] + (e + seq![' '] + f));
    assert(join(s4, ' ') == c + seq![' '] + (d + seq![' '] + (e + seq![' '] + f)));
    assert(join(s5, ' ') == b + seq![' '] + (c + seq![' '] + (d + seq![' '] + (e + seq![' '] + f))));
    assert(join(s6, ' ') == a + seq![' '] + (b + seq![' '] + (c + seq![' '] + (d + seq![' '] + (e + seq![
        ' ',
    ] + f)))));
    assert(join(s6, ' ') =~= a + seq![' '] + b + seq![' '] + c + seq![' '] + d + seq![' '] + e + seq![' ']
        + f);
}

proof fn lemma_fen_text_fields(s: GameState)
    ensures
        fen_text(s) == join(fen_fields(s), ' '),
{
    let f = fen_fields(s);
    lemma_join_six(f[0], f[1], f[2], f[3], f[4], f[5]);
    assert(f =~= seq![f[0], f[1], f[2], f[3], f[4], f[5]]);
}

/// The FEN fields of `s` are not empty and hold no white space.
proof fn lemma_fen_fields_words(s: GameState)
    requires
        s.en_passant matches Some(sq) ==> sq < 64,
    ensures
        forall|f: int| 0 <= f < 6 ==> (#[trigger] fen_fields(s)[f]).len() > 0,
        forall|f: int, k: int|
            0 <= f < 6 && 0 <= k < fen_fields(s)[f].len() ==> !whitespace(#[trigger] fen_fields(s)[f][k]),
{
    let fields = fen_fields(s);
    lemma_board_text_chars(s.board@, 7);
    lemma_castling_reads_back(s.castling);
    if let Some(sq) = s.en_passant {
        lemma_square_text_reads_back(sq as int);
    }
    lemma_nat_text_reads_back(s.halfmove_clock as nat);
    lemma_nat_text_reads_back(s.fullmove_number as nat);
    assert forall|f: int, k: int| 0 <= f < 6 && 0 <= k < fields[f].len() implies !whitespace(
        #[trigger] fields[f][k],
    ) by {
        if f == 0 {
            assert(rank_char(fields[0][k]) || fields[0][k] == '/');
        } else if f == 4 {
            assert(ascii_digit(fields[4][k]));
        } else if f == 5 {
            assert(ascii_digit(fields[5][k]));
        }
    }
}

/// Law: the FEN text of a position reads back as that position, whenever its en passant
/// square, if any, is on the board.
pub proof fn law_fen_round_trip(s: GameState)
    requires
        s.en_passant matches Some(sq) ==> sq < 64,
    ensures
        fen_parse(fen_text(s)) matches Ok(p) && holds_position(s, p),
{
    let text = fen_text(s);
    let fields = fen_fields(s);
    lemma_fen_text_fields(s);
    lemma_fen_fields_words(s);
    assert(text.subrange(0, text.len() as int) =~= text);
    lemma_split_ws_join(text, 0, Seq::empty(), fields);
    assert(Seq::<Seq<char>>::empty() + fields =~= fields);
    assert(split_ws(text) == fields);
    lemma_board_reads_back(s.board@);
    lemma_castling_reads_back(s.castling);
    lemma_u32_text_reads_back(s.halfmove_clock);
    lemma_u32_text_reads_back(s.fullmove_number);
    reveal_strlit("w");
    reveal_strlit("b");
    reveal_strlit("-");
    if let Some(sq) = s.en_passant {
        lemma_square_text_reads_back(sq as int);
        assert(fields[3] != "-"@);
    } else {
        assert(fields[3] =~= "-"@);
    }
    if s.side_to_move == Color::White {
        assert(fields[1] =~= "w"@);
    } else {
        assert(fields[1] =~= "b"@);
        assert(fields[1] != "w"@);
    }
}

} // verus!
