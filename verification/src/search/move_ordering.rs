//! Move ordering for alpha-beta search: the table's move first, then the other moves
//! by score, highest first, moves of equal score keeping the order they came in. A
//! capture scores 10000 plus the victim's value minus the attacker's (most valuable
//! victim, least valuable attacker); any other move scores 0, so a king's capture of a
//! cheaper piece comes after the quiet moves.

use vstd::prelude::*;

use crate::engine::board::{Move, Piece, PieceType};
use crate::engine::game_state::GameState;
use crate::search::eval::material_value;

verus! {

/// The ordering score of `mv`: the table's move scores highest, a capture scores
/// 10000 plus the victim's value minus the attacker's, anything else 0.
pub open spec fn move_score(b: Seq<Option<Piece>>, mv: Move, tt_move: Option<Move>) -> int {
    if tt_move == Some(mv) {
        100_000
    } else if b[mv.to as int] is Some && b[mv.from as int] is Some {
        10_000 + material_value(b[mv.to as int]->0.kind) - material_value(b[mv.from as int]->0.kind)
    } else {
        0
    }
}

/// Moves whose ordering score is `k`.
pub open spec fn scored(b: Seq<Option<Piece>>, tt_move: Option<Move>, k: int) -> spec_fn(Move) -> bool {
    |m: Move| move_score(b, m, tt_move) == k
}

/// `s` is ordered from the highest score to the lowest.
pub open spec fn sorted_by_score(b: Seq<Option<Piece>>, tt_move: Option<Move>, s: Seq<Move>) -> bool {
    forall|i: int, j: int|
        0 <= i < j < s.len() ==> move_score(b, #[trigger] s[i], tt_move) >= move_score(b, #[trigger] s[j], tt_move)
}

pub open spec fn on_board_moves(s: Seq<Move>) -> bool {
    forall|i: int| 0 <= i < s.len() ==> (#[trigger] s[i]).from < 64 && s[i].to < 64
}

fn piece_value(piece: PieceType) -> (r: i32)
    ensures
        r == material_value(piece),
{
    match piece {
        PieceType::Pawn => 100,
        PieceType::Knight => 320,
        PieceType::Bishop => 330,
        PieceType::Rook => 500,
        PieceType::Queen => 900,
        PieceType::King => 20_000,
    }
}

fn score_move(state: &GameState, mv: Move, tt_move: Option<Move>) -> (r: i32)
    requires
        mv.from < 64,
        mv.to < 64,
    ensures
        r == move_score(state.board@, mv, tt_move),
{
    if tt_move == Some(mv) {
        return 100_000;
    }
    let victim = state.board[mv.to];
    let attacker = state.board[mv.from];
    if let (Some(victim), Some(attacker)) = (victim, attacker) {
        let victim_value = piece_value(victim.kind);
        let attacker_value = piece_value(attacker.kind);
        return 10_000 + victim_value - attacker_value;
    }
    0
}

proof fn lemma_filter_none(s: Seq<Move>, p: spec_fn(Move) -> bool)
    requires
        forall|i: int| 0 <= i < s.len() ==> !p(#[trigger] s[i]),
    ensures
        s.filter(p) == Seq::<Move>::empty(),
    decreases s.len(),
{
    reveal(Seq::filter);
    if s.len() > 0 {
        lemma_filter_none(s.drop_last(), p);
    }
    assert(s.filter(p) =~= Seq::<Move>::empty());
}

proof fn lemma_filter_single(x: Move, p: spec_fn(Move) -> bool)
    ensures
        seq![x].filter(p) == if p(x) { seq![x] } else { Seq::<Move>::empty() },
{
    reveal(Seq::filter);
    assert(seq![x].drop_last() =~= Seq::<Move>::empty());
    assert(seq![x].drop_last().filter(p) =~= Seq::<Move>::empty());
}

/// Inserting `x` into a sorted `a + c`, after every element of `a` and before
/// the lower-scored elements of `c`, keeps each score class in order with `x` last.
proof fn lemma_insert_stable(
    b: Seq<Option<Piece>>,
    tt_move: Option<Move>,
    a: Seq<Move>,
    c: Seq<Move>,
    x: Move,
    k: int,
)
    requires
        forall|i: int| 0 <= i < c.len() ==> move_score(b, #[trigger] c[i], tt_move) < move_score(b, x, tt_move),
    ensures
        (a + seq![x] + c).filter(scored(b, tt_move, k)) == (a + c).filter(scored(b, tt_move, k)) + seq![x].filter(scored(b, tt_move, k)),
{
    let p = scored(b, tt_move, k);
    Seq::filter_distributes_over_add(a + seq![x], c, p);
    Seq::filter_distributes_over_add(a, seq![x], p);
    Seq::filter_distributes_over_add(a, c, p);
    lemma_filter_single(x, p);
    if move_score(b, x, tt_move) == k {
        lemma_filter_none(c, p);
        assert(a.filter(p) + Seq::<Move>::empty() =~= a.filter(p));
        assert(a.filter(p) + seq![x] + Seq::<Move>::empty() =~= a.filter(p) + seq![x]);
    } else {
        assert(a.filter(p) + Seq::<Move>::empty() =~= a.filter(p));
        assert(a.filter(p) + c.filter(p) + Seq::<Move>::empty() =~= a.filter(p) + c.filter(p));
    }
}

proof fn lemma_contains_via_filter(s: Seq<Move>, p: spec_fn(Move) -> bool, m: Move)
    requires
        p(m),
    ensures
        s.contains(m) <==> s.filter(p).contains(m),
{
    broadcast use vstd::seq_lib::group_filter_ensures;
    if s.contains(m) {
        let i = choose|i: int| 0 <= i < s.len() && s[i] == m;
        assert(s.filter(p).contains(s[i]));
    }
    if s.filter(p).contains(m) {
        let i = choose|i: int| 0 <= i < s.filter(p).len() && s.filter(p)[i] == m;
        Seq::lemma_filter_contains_rev(s, p, m);
    }
}

/// `o` is `moves` put in the order `order_moves` gives: as many moves, highest score
/// first, and the moves of each score in the order they came in.
pub open spec fn orders(b: Seq<Option<Piece>>, tt_move: Option<Move>, moves: Seq<Move>, o: Seq<Move>) -> bool {
    &&& o.len() == moves.len()
    &&& sorted_by_score(b, tt_move, o)
    &&& forall|k: int| #[trigger] o.filter(scored(b, tt_move, k)) == moves.filter(scored(b, tt_move, k))
}

/// The order that `order_moves` gives `moves`.
pub open spec fn move_order(b: Seq<Option<Piece>>, tt_move: Option<Move>, moves: Seq<Move>) -> Seq<Move> {
    choose|o: Seq<Move>| orders(b, tt_move, moves, o)
}

proof fn lemma_filter_cons(x: Move, t: Seq<Move>, p: spec_fn(Move) -> bool)
    ensures
        (seq![x] + t).filter(p) == (if p(x) { seq![x] } else { Seq::<Move>::empty() }) + t.filter(p),
{
    Seq::filter_distributes_over_add(seq![x], t, p);
    lemma_filter_single(x, p);
}

/// Two sequences ordered by score whose score classes hold the same moves in the same
/// order are the same.
proof fn lemma_sorted_classes_equal(b: Seq<Option<Piece>>, tt_move: Option<Move>, o1: Seq<Move>, o2: Seq<Move>)
    requires
        o1.len() == o2.len(),
        sorted_by_score(b, tt_move, o1),
        sorted_by_score(b, tt_move, o2),
        forall|k: int| #[trigger] o1.filter(scored(b, tt_move, k)) == o2.filter(scored(b, tt_move, k)),
    ensures
        o1 == o2,
    decreases o1.len(),
{
    if o1.len() == 0 {
        assert(o1 =~= o2);
    } else {
        let x1 = o1[0];
        let x2 = o2[0];
        let t1 = o1.drop_first();
        let t2 = o2.drop_first();
        assert(o1 =~= seq![x1] + t1);
        assert(o2 =~= seq![x2] + t2);
        let k1 = move_score(b, x1, tt_move);
        let k2 = move_score(b, x2, tt_move);
        let p1 = scored(b, tt_move, k1);
        let p2 = scored(b, tt_move, k2);
        o1.lemma_filter_contains(p1, 0);
        assert(o2.filter(p1).contains(x1));
        Seq::lemma_filter_contains_rev(o2, p1, x1);
        let j = choose|j: int| 0 <= j < o2.len() && o2[j] == x1;
        if j > 0 {
            assert(move_score(b, o2[0], tt_move) >= move_score(b, o2[j], tt_move));
        }
        o2.lemma_filter_contains(p2, 0);
        assert(o1.filter(p2).contains(x2));
        Seq::lemma_filter_contains_rev(o1, p2, x2);
        let j2 = choose|j: int| 0 <= j < o1.len() && o1[j] == x2;
        if j2 > 0 {
            assert(move_score(b, o1[0], tt_move) >= move_score(b, o1[j2], tt_move));
        }
        assert(k1 == k2);
        lemma_filter_cons(x1, t1, p1);
        lemma_filter_cons(x2, t2, p1);
        assert(o1.filter(p1)[0] == x1);
        assert(o2.filter(p1)[0] == x2);
        assert(x1 == x2);
        assert forall|k: int| #[trigger] t1.filter(scored(b, tt_move, k)) == t2.filter(scored(b, tt_move, k)) by {
            let p = scored(b, tt_move, k);
            lemma_filter_cons(x1, t1, p);
            lemma_filter_cons(x1, t2, p);
            let head = if p(x1) { seq![x1] } else { Seq::<Move>::empty() };
            assert((head + t1.filter(p)).skip(head.len() as int) =~= t1.filter(p));
            assert((head + t2.filter(p)).skip(head.len() as int) =~= t2.filter(p));
            assert(o1.filter(p) == o2.filter(p));
        }
        assert forall|i: int, j: int| 0 <= i < j < t1.len() implies move_score(b, #[trigger] t1[i], tt_move)
            >= move_score(b, #[trigger] t1[j], tt_move) by {
            assert(t1[i] == o1[i + 1] && t1[j] == o1[j + 1]);
        }
        assert forall|i: int, j: int| 0 <= i < j < t2.len() implies move_score(b, #[trigger] t2[i], tt_move)
            >= move_score(b, #[trigger] t2[j], tt_move) by {
            assert(t2[i] == o2[i + 1] && t2[j] == o2[j + 1]);
        }
        lemma_sorted_classes_equal(b, tt_move, t1, t2);
    }
}

/// Any order of `moves` as `order_moves` gives it is `move_order`.
pub proof fn lemma_move_order_unique(b: Seq<Option<Piece>>, tt_move: Option<Move>, moves: Seq<Move>, o: Seq<Move>)
    requires
        orders(b, tt_move, moves, o),
    ensures
        move_order(b, tt_move, moves) == o,
{
    let c = move_order(b, tt_move, moves);
    assert(orders(b, tt_move, moves, c));
    assert forall|k: int| #[trigger] c.filter(scored(b, tt_move, k)) == o.filter(scored(b, tt_move, k)) by {
        assert(c.filter(scored(b, tt_move, k)) == moves.filter(scored(b, tt_move, k)));
        assert(o.filter(scored(b, tt_move, k)) == moves.filter(scored(b, tt_move, k)));
    }
    lemma_sorted_classes_equal(b, tt_move, c, o);
}

/// `s` with `x` inserted after every move that scores at least as high.
pub open spec fn insert_by_score(b: Seq<Option<Piece>>, tt_move: Option<Move>, x: Move, s: Seq<Move>) -> Seq<Move>
    decreases s.len(),
{
    if s.len() == 0 || move_score(b, s.last(), tt_move) >= move_score(b, x, tt_move) {
        s.push(x)
    } else {
        insert_by_score(b, tt_move, x, s.drop_last()).push(s.last())
    }
}

/// `s` sorted by score, highest first, by insertion.
pub open spec fn sort_by_score(b: Seq<Option<Piece>>, tt_move: Option<Move>, s: Seq<Move>) -> Seq<Move>
    decreases s.len(),
{
    if s.len() == 0 {
        s
    } else {
        insert_by_score(b, tt_move, s.last(), sort_by_score(b, tt_move, s.drop_last()))
    }
}

/// Inserting splits `s` at `k`: the moves before score at least as high as `x` (when `s`
/// is sorted), those after strictly lower.
proof fn lemma_insert_split(b: Seq<Option<Piece>>, tt_move: Option<Move>, x: Move, s: Seq<Move>) -> (k: int)
    ensures
        0 <= k <= s.len(),
        insert_by_score(b, tt_move, x, s) == s.take(k) + seq![x] + s.skip(k),
        forall|j: int| k <= j < s.len() ==> move_score(b, #[trigger] s[j], tt_move) < move_score(b, x, tt_move),
        sorted_by_score(b, tt_move, s) ==> forall|j: int|
            0 <= j < k ==> move_score(b, #[trigger] s[j], tt_move) >= move_score(b, x, tt_move),
    decreases s.len(),
{
    if s.len() == 0 || move_score(b, s.last(), tt_move) >= move_score(b, x, tt_move) {
        assert(s.take(s.len() as int) =~= s);
        assert(s.skip(s.len() as int) =~= Seq::<Move>::empty());
        assert(insert_by_score(b, tt_move, x, s) =~= s.take(s.len() as int) + seq![x] + s.skip(s.len() as int));
        if sorted_by_score(b, tt_move, s) {
            assert forall|j: int| 0 <= j < s.len() implies move_score(b, #[trigger] s[j], tt_move) >= move_score(b, x, tt_move) by {
                if j < s.len() - 1 {
                    assert(move_score(b, s[j], tt_move) >= move_score(b, s[s.len() - 1], tt_move));
                }
            }
        }
        s.len() as int
    } else {
        let t = s.drop_last();
        let k = lemma_insert_split(b, tt_move, x, t);
        assert(insert_by_score(b, tt_move, x, s) =~= s.take(k) + seq![x] + s.skip(k));
        assert forall|j: int| k <= j < s.len() implies move_score(b, #[trigger] s[j], tt_move) < move_score(b, x, tt_move) by {
            if j < s.len() - 1 {
                assert(s[j] == t[j]);
            }
        }
        if sorted_by_score(b, tt_move, s) {
            assert forall|i: int, j: int| 0 <= i < j < t.len() implies move_score(b, #[trigger] t[i], tt_move)
                >= move_score(b, #[trigger] t[j], tt_move) by {
                assert(t[i] == s[i] && t[j] == s[j]);
            }
            assert forall|j: int| 0 <= j < k implies move_score(b, #[trigger] s[j], tt_move) >= move_score(b, x, tt_move) by {
                assert(s[j] == t[j]);
            }
        }
        k
    }
}

/// Putting `x` between a high-scoring `a` and a lower-scoring `c`, where `a + c` is
/// sorted, keeps the whole sorted.
proof fn lemma_insert_sorted(b: Seq<Option<Piece>>, tt_move: Option<Move>, a: Seq<Move>, x: Move, c: Seq<Move>)
    requires
        sorted_by_score(b, tt_move, a + c),
        forall|j: int| 0 <= j < a.len() ==> move_score(b, #[trigger] a[j], tt_move) >= move_score(b, x, tt_move),
        forall|j: int| 0 <= j < c.len() ==> move_score(b, #[trigger] c[j], tt_move) < move_score(b, x, tt_move),
    ensures
        sorted_by_score(b, tt_move, a + seq![x] + c),
{
    let st = a + c;
    let r = a + seq![x] + c;
    let k = a.len() as int;
    assert forall|i: int, j: int| 0 <= i < j < r.len() implies move_score(b, #[trigger] r[i], tt_move)
        >= move_score(b, #[trigger] r[j], tt_move) by {
        if j < k {
            assert(r[i] == st[i] && r[j] == st[j]);
        } else if j == k {
            assert(r[i] == a[i]);
        } else if i < k {
            assert(r[i] == st[i] && r[j] == st[j - 1]);
        } else if i == k {
            assert(r[j] == c[j - k - 1]);
        } else {
            assert(r[i] == st[i - 1] && r[j] == st[j - 1]);
        }
    }
}

proof fn lemma_sort_orders(b: Seq<Option<Piece>>, tt_move: Option<Move>, s: Seq<Move>)
    ensures
        orders(b, tt_move, s, sort_by_score(b, tt_move, s)),
    decreases s.len(),
{
    if s.len() > 0 {
        let t = s.drop_last();
        let x = s.last();
        lemma_sort_orders(b, tt_move, t);
        let st = sort_by_score(b, tt_move, t);
        let k = lemma_insert_split(b, tt_move, x, st);
        let a = st.take(k);
        let c = st.skip(k);
        let r = sort_by_score(b, tt_move, s);
        assert(r == a + seq![x] + c);
        assert(a + c =~= st);
        assert forall|j: int| 0 <= j < a.len() implies move_score(b, #[trigger] a[j], tt_move) >= move_score(b, x, tt_move) by {
            assert(a[j] == st[j]);
        }
        assert forall|i: int| 0 <= i < c.len() implies move_score(b, #[trigger] c[i], tt_move) < move_score(b, x, tt_move) by {
            assert(c[i] == st[k + i]);
        }
        lemma_insert_sorted(b, tt_move, a, x, c);
        assert(s =~= t + seq![x]);
        assert forall|kk: int| #[trigger] r.filter(scored(b, tt_move, kk)) == s.filter(scored(b, tt_move, kk)) by {
            lemma_insert_stable(b, tt_move, a, c, x, kk);
            Seq::filter_distributes_over_add(t, seq![x], scored(b, tt_move, kk));
        }
    }
}

/// `move_order` lists as many moves as it orders.
pub proof fn lemma_move_order_len(b: Seq<Option<Piece>>, tt_move: Option<Move>, moves: Seq<Move>)
    ensures
        move_order(b, tt_move, moves).len() == moves.len(),
{
    lemma_sort_orders(b, tt_move, moves);
    assert(orders(b, tt_move, moves, move_order(b, tt_move, moves)));
}

/// Every move that `move_order` lists is one of the moves it orders.
pub proof fn lemma_move_order_contains(b: Seq<Option<Piece>>, tt_move: Option<Move>, moves: Seq<Move>, i: int)
    requires
        0 <= i < move_order(b, tt_move, moves).len(),
    ensures
        moves.contains(move_order(b, tt_move, moves)[i]),
        move_order(b, tt_move, moves).len() == moves.len(),
{
    lemma_sort_orders(b, tt_move, moves);
    let o = move_order(b, tt_move, moves);
    assert(orders(b, tt_move, moves, o));
    let m = o[i];
    let p = scored(b, tt_move, move_score(b, m, tt_move));
    o.lemma_filter_contains(p, i);
    assert(moves.filter(p).contains(m));
    Seq::lemma_filter_contains_rev(moves, p, m);
}

pub fn order_moves(state: &GameState, moves: &mut [Move], tt_move: Option<Move>)
    requires
        on_board_moves(old(moves)@),
    ensures
        final(moves)@.len() == old(moves)@.len(),
        on_board_moves(final(moves)@),
        sorted_by_score(state.board@, tt_move, final(moves)@),
        forall|m: Move| #[trigger] final(moves)@.contains(m) <==> old(moves)@.contains(m),
        forall|k: int|
            #[trigger] final(moves)@.filter(scored(state.board@, tt_move, k)) == old(moves)@.filter(
                scored(state.board@, tt_move, k),
            ),
{
    let ghost b = state.board@;
    let ghost orig = moves@;
    let n = moves.len();
    if n == 0 {
        return;
    }
    let mut i: usize = 1;
    proof {
        assert(moves@.take(1) =~= orig.take(1));
    }
    while i < n
        invariant
            1 <= i <= n,
            n == moves@.len(),
            n == orig.len(),
            b == state.board@,
            on_board_moves(moves@),
            sorted_by_score(b, tt_move, moves@.take(i as int)),
            moves@.skip(i as int) == orig.skip(i as int),
            forall|k: int|
                #[trigger] moves@.take(i as int).filter(scored(b, tt_move, k)) == orig.take(i as int).filter(
                    scored(b, tt_move, k),
                ),
        decreases n - i,
    {
        let ghost m0 = moves@;
        let ghost p = moves@.take(i as int);
        let ghost x = moves@[i as int];
        let ghost rest = moves@.skip(i + 1);
        assert(orig[i as int] == x) by {
            assert(orig.skip(i as int)[0] == moves@.skip(i as int)[0]);
        }
        assert(m0 =~= p + seq![x] + rest);
        let mut j: usize = i;
        assert(moves@ =~= p.take(j as int) + seq![x] + p.subrange(j as int, i as int) + rest);
        while j > 0 && score_move(state, moves[j - 1], tt_move) < score_move(state, moves[j], tt_move)
            invariant
                0 <= j <= i < n,
                n == moves@.len(),
                p.len() == i,
                rest.len() == n - i - 1,
                b == state.board@,
                on_board_moves(moves@),
                moves@ == p.take(j as int) + seq![x] + p.subrange(j as int, i as int) + rest,
                forall|t: int| j <= t < i ==> move_score(b, #[trigger] p[t], tt_move) < move_score(b, x, tt_move),
            decreases j,
        {
            let left = moves[j - 1];
            let right = moves[j];
            moves[j - 1] = right;
            moves[j] = left;
            j -= 1;
            proof {
                assert(left == p[j as int]);
                assert(moves@ =~= p.take(j as int) + seq![x] + p.subrange(j as int, i as int) + rest);
            }
        }
        proof {
            let a = p.take(j as int);
            let c = p.subrange(j as int, i as int);
            assert(a + c =~= p);
            assert(moves@.take(i + 1) =~= a + seq![x] + c);
            assert(moves@.skip(i + 1) =~= rest);
            assert(rest =~= orig.skip(i + 1)) by {
                assert forall|t: int| 0 <= t < rest.len() implies rest[t] == orig.skip(i + 1)[t] by {
                    assert(rest[t] == m0.skip(i as int)[t + 1]);
                }
            }
            assert(orig.take(i + 1) =~= orig.take(i as int) + seq![x]);
            assert forall|k: int|
                #[trigger] moves@.take(i + 1).filter(scored(b, tt_move, k)) == orig.take(i + 1).filter(
                    scored(b, tt_move, k),
                ) by {
                lemma_insert_stable(b, tt_move, a, c, x, k);
                Seq::filter_distributes_over_add(orig.take(i as int), seq![x], scored(b, tt_move, k));
                assert(p.filter(scored(b, tt_move, k)) == orig.take(i as int).filter(scored(b, tt_move, k)));
            }
            let q = moves@.take(i + 1);
            assert forall|s: int, t: int| 0 <= s < t < q.len() implies move_score(b, #[trigger] q[s], tt_move) >= move_score(b, #[trigger] q[t], tt_move) by {
                if j > 0 {
                    assert(p[j - 1] == q[j - 1]);
                }
                if s < j && t < j {
                    assert(q[s] == p[s] && q[t] == p[t]);
                } else if s < j && t == j {
                    assert(q[s] == p[s]);
                    assert(move_score(b, p[s], tt_move) >= move_score(b, p[j - 1], tt_move));
                } else if s < j {
                    assert(q[s] == p[s] && q[t] == p[t - 1]);
                } else if s == j {
                    assert(q[t] == p[t - 1]);
                } else {
                    assert(q[s] == p[s - 1] && q[t] == p[t - 1]);
                }
            }
        }
        i += 1;
    }
    proof {
        assert(moves@.take(n as int) =~= moves@);
        assert(orig.take(n as int) =~= orig);
        assert forall|m: Move| #[trigger] moves@.contains(m) <==> orig.contains(m) by {
            let p = scored(b, tt_move, move_score(b, m, tt_move));
            lemma_contains_via_filter(moves@, p, m);
            lemma_contains_via_filter(orig, p, m);
        }
    }
}

/// Law: in moves ordered by score, the table's move, if it is among them, comes first.
pub proof fn law_table_move_first(b: Seq<Option<Piece>>, tt: Move, s: Seq<Move>)
    requires
        sorted_by_score(b, Some(tt), s),
        s.contains(tt),
    ensures
        s[0] == tt,
{
    let i = choose|i: int| 0 <= i < s.len() && s[i] == tt;
    if i > 0 {
        assert(move_score(b, s[0], Some(tt)) >= move_score(b, s[i], Some(tt)));
        if s[0] != tt {
            if b[s[0].to as int] is Some && b[s[0].from as int] is Some {
                let v = b[s[0].to as int]->0.kind;
                let a = b[s[0].from as int]->0.kind;
                assert(material_value(v) <= 20_000 && material_value(a) >= 100);
            }
        }
    }
}

} // verus!
