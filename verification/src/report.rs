//! Reports for a terminal: board diagrams and analyses.

use vstd::prelude::*;

use crate::analysis::{Analysis, MoveEval, Outcome};
use crate::board::{Board, Player, Rules, Seat};
use crate::model;
use crate::text;

verus! {

// ---------------------------------------------------------------------------
// The board diagram
// ---------------------------------------------------------------------------

/// `k` times the character `c`.
pub open spec fn repeated(c: char, k: int) -> Seq<char>
    decreases k,
{
    if k <= 0 {
        Seq::empty()
    } else {
        repeated(c, k - 1).push(c)
    }
}

/// A number, right-aligned in `w` columns.
pub open spec fn padded(n: int, w: int) -> Seq<char> {
    repeated(' ', w - text::decimal(n).len()) + text::decimal(n)
}

/// A row of pits: three columns each, with one space between them.
pub open spec fn pit_row(counts: Seq<int>) -> Seq<char>
    decreases counts.len(),
{
    if counts.len() == 0 {
        Seq::empty()
    } else if counts.len() == 1 {
        padded(counts[0], 3)
    } else {
        pit_row(counts.drop_last()) + " "@ + padded(counts.last(), 3)
    }
}

/// The two-row diagram of a board that P0 sees as `s`.
pub open spec fn diagram(s: Seq<int>) -> Seq<char> {
    let n = model::pits(s);
    "        N (P1)\n"@ + "       "@ + pit_row(model::theirs(s).reverse()) + "\n"@ + "  "@ + padded(
        model::their_bank(s),
        2,
    ) + " "@ + repeated('-', n * 3 + (n - 1)) + " "@ + padded(model::bank(s), 2)
        + "   (P1 store | P0 store)\n"@ + "       "@ + pit_row(model::mine(s)) + "\n"@
        + "        S (P0)"@
}

fn push_spaces(out: &mut String, k: usize)
    ensures
        final(out)@ == old(out)@ + repeated(' ', k as int),
{
    let ghost start = out@;
    let mut i: usize = 0;
    assert(start + repeated(' ', 0) =~= start);
    while i < k
        invariant
            i <= k,
            out@ == start + repeated(' ', i as int),
        decreases k - i,
    {
        out.append(" ");
        proof {
            reveal_strlit(" ");
            assert(out@ =~= start + repeated(' ', i + 1));
        }
        i = i + 1;
    }
}

fn push_dashes(out: &mut String, k: usize)
    ensures
        final(out)@ == old(out)@ + repeated('-', k as int),
{
    let ghost start = out@;
    let mut i: usize = 0;
    assert(start + repeated('-', 0) =~= start);
    while i < k
        invariant
            i <= k,
            out@ == start + repeated('-', i as int),
        decreases k - i,
    {
        out.append("-");
        proof {
            reveal_strlit("-");
            assert(out@ =~= start + repeated('-', i + 1));
        }
        i = i + 1;
    }
}

/// Append a number, right-aligned in `w` columns.
fn push_padded(out: &mut String, n: u64, w: usize)
    ensures
        final(out)@ == old(out)@ + padded(n as int, w as int),
{
    let mut digits = String::new();
    text::push_decimal(&mut digits, n);
    assert(digits@ =~= text::decimal(n as int));
    let ghost start = out@;
    let len: usize = digits.as_str().unicode_len();
    if len < w {
        push_spaces(out, w - len);
    } else {
        assert(out@ =~= start + repeated(' ', w - len));
    }
    out.append(digits.as_str());
    assert(out@ =~= start + padded(n as int, w as int));
}

/// Append player `p`'s row of pits, in order or reversed.
fn push_row(out: &mut String, b: &Board, p: Player, reversed: bool)
    ensures
        final(out)@ == old(out)@ + pit_row(
            if reversed {
                model::mine(b.seen_by(p)).reverse()
            } else {
                model::mine(b.seen_by(p))
            },
        ),
{
    proof {
        use_type_invariant(b);
        b.lemma_seen();
    }
    let n = b.pits_per_side();
    let ghost row = if reversed {
        model::mine(b.seen_by(p)).reverse()
    } else {
        model::mine(b.seen_by(p))
    };
    let ghost start = out@;
    let mut i: usize = 0;
    assert(row.take(0) =~= Seq::<int>::empty());
    assert(start + pit_row(row.take(0)) =~= start);
    while i < n
        invariant
            n == b.pits(),
            b.wf(),
            n == model::pits(b.seen_by(p)),
            model::mine(b.seen_by(p)).len() == n,
            row == if reversed {
                model::mine(b.seen_by(p)).reverse()
            } else {
                model::mine(b.seen_by(p))
            },
            i <= n,
            out@ == start + pit_row(row.take(i as int)),
        decreases n - i,
    {
        if i > 0 {
            out.append(" ");
        }
        let at: usize = if reversed {
            n - 1 - i
        } else {
            i
        };
        let c = b.pit(p, at);
        push_padded(out, c as u64, 3);
        proof {
            assert(row[i as int] == c);
            assert(row.take(i + 1).drop_last() =~= row.take(i as int));
            assert(row.take(i + 1).last() == c);
            assert(out@ =~= start + pit_row(row.take(i + 1)));
        }
        i = i + 1;
    }
    assert(row.take(n as int) =~= row);
}

/// Render the board as a classic two-row Kalah diagram.
///
/// P1 (North) pits run right-to-left across the top; P0 (South) pits run left-to-right
/// across the bottom. P1's store sits on the left, P0's on the right: each player's
/// store is "ahead" of their own row.
pub fn render_board(b: &Board) -> (s: String)
    ensures
        s@ == diagram(b.seen_by(Player::P0)),
{
    proof {
        use_type_invariant(b);
        b.lemma_seen();
        model::lemma_flip(b.seen_by(Player::P0));
    }
    let n = b.pits_per_side();
    let mut out = String::from_str("        N (P1)\n");
    out.append("       ");
    push_row(&mut out, b, Player::P1, true);
    out.append("\n");
    out.append("  ");
    push_padded(&mut out, b.store(Player::P1) as u64, 2);
    out.append(" ");
    push_dashes(&mut out, n * 3 + (n - 1));
    out.append(" ");
    push_padded(&mut out, b.store(Player::P0) as u64, 2);
    out.append("   (P1 store | P0 store)\n");
    out.append("       ");
    push_row(&mut out, b, Player::P0, false);
    out.append("\n");
    out.append("        S (P0)");
    assert(out@ =~= diagram(b.seen_by(Player::P0)));
    out
}

// ---------------------------------------------------------------------------
// Analyses
// ---------------------------------------------------------------------------

/// An outcome in words.
pub open spec fn outcome_text(o: Outcome) -> Seq<char> {
    match o {
        Outcome::Win => "WIN"@,
        Outcome::Loss => "LOSS"@,
        Outcome::Draw => "DRAW"@,
    }
}

/// An outcome in words.
pub fn outcome_word(o: Outcome) -> (t: &'static str)
    ensures
        t@ == outcome_text(o),
        o is Win ==> t@ == "WIN"@,
        o is Loss ==> t@ == "LOSS"@,
        o is Draw ==> t@ == "DRAW"@,
{
    match o {
        Outcome::Win => "WIN",
        Outcome::Loss => "LOSS",
        Outcome::Draw => "DRAW",
    }
}

/// The marks of a move in the table of moves.
pub open spec fn tags_text(m: MoveEval) -> Seq<char> {
    if m.extra_turn && m.captured {
        "  [extra turn, capture]"@
    } else if m.extra_turn {
        "  [extra turn]"@
    } else if m.captured {
        "  [capture]"@
    } else {
        ""@
    }
}

/// The marks of a move in the table of moves.
pub fn move_tags(m: &MoveEval) -> (t: &'static str)
    ensures
        t@ == tags_text(*m),
        m.extra_turn && m.captured ==> t@ == "  [extra turn, capture]"@,
        m.extra_turn && !m.captured ==> t@ == "  [extra turn]"@,
        !m.extra_turn && m.captured ==> t@ == "  [capture]"@,
        !m.extra_turn && !m.captured ==> t@ == ""@,
{
    if m.extra_turn && m.captured {
        "  [extra turn, capture]"
    } else if m.extra_turn {
        "  [extra turn]"
    } else if m.captured {
        "  [capture]"
    } else {
        ""
    }
}

/// The short name of a player.
pub open spec fn short_name(p: Player) -> Seq<char> {
    match p {
        Player::P0 => "P0"@,
        Player::P1 => "P1"@,
    }
}

/// One move of a variation: the player, the pit, and a sign for an extra turn or a
/// capture.
#[verifier::opaque]
pub open spec fn step_text(rules: Rules, at: Seat, mv: int) -> Seq<char> {
    short_name(at.mover) + ":"@ + text::decimal(mv) + if model::extra_turn(at.pos, mv) {
        "↻"@
    } else if model::captures(rules, at.pos, mv) {
        "×"@
    } else {
        ""@
    }
}

/// A variation, move by move, as far as its moves are legal; `first` tells that nothing
/// comes before it.
pub open spec fn variation_text(rules: Rules, at: Seat, pv: Seq<usize>, first: bool) -> Seq<char>
    decreases pv.len(),
{
    if pv.len() == 0 || model::over(at.pos) || !model::legal(at.pos, pv[0] as int) {
        Seq::empty()
    } else {
        (if first {
            Seq::empty()
        } else {
            "  →  "@
        }) + step_text(rules, at, pv[0] as int) + variation_text(
            rules,
            at.moved(rules, pv[0] as int),
            pv.drop_first(),
            false,
        )
    }
}

/// A variation is its first move and the rest.
proof fn lemma_variation_step(
    rules: Rules,
    at: Seat,
    pv: Seq<usize>,
    first: bool,
    before: Seq<char>,
    after: Seq<char>,
    next: Seat,
)
    requires
        pv.len() > 0,
        !model::over(at.pos),
        model::legal(at.pos, pv[0] as int),
        next == at.moved(rules, pv[0] as int),
        after == (if first {
            before
        } else {
            before + "  →  "@
        }) + step_text(rules, at, pv[0] as int),
    ensures
        after + variation_text(rules, next, pv.drop_first(), false) == before + variation_text(
            rules,
            at,
            pv,
            first,
        ),
{
    let tail = variation_text(rules, next, pv.drop_first(), false);
    let step = step_text(rules, at, pv[0] as int);
    if first {
        assert(variation_text(rules, at, pv, first) =~= step + tail);
        assert(after + tail =~= before + (step + tail));
    } else {
        assert(variation_text(rules, at, pv, first) =~= "  →  "@ + step + tail);
        assert(after + tail =~= before + ("  →  "@ + step + tail));
    }
}

/// Append one move of a variation and play it.
fn push_step(out: &mut String, b: &Board, rules: &Rules, mv: usize) -> (next: Board)
    requires
        model::legal(b.pos(), mv as int),
    ensures
        final(out)@ == old(out)@ + step_text(*rules, b.seat(), mv as int),
        next.wf(),
        next.seat() == b.seat().moved(*rules, mv as int),
{
    proof {
        reveal(step_text);
    }
    let r = b.apply(rules, mv);
    match b.turn() {
        Player::P0 => {
            out.append("P0");
        },
        Player::P1 => {
            out.append("P1");
        },
    }
    out.append(":");
    text::push_decimal(out, mv as u64);
    if r.extra_turn {
        out.append("↻");
    } else if r.captured {
        out.append("×");
    } else {
        out.append("");
    }
    assert(out@ =~= old(out)@ + step_text(*rules, b.seat(), mv as int));
    r.board
}

/// Replay the principal variation to annotate each move with the player and any
/// extra-turn / capture flags.
pub fn render_pv(board: &Board, rules: &Rules, pv: &Vec<usize>) -> (s: String)
    ensures
        s@ == variation_text(*rules, board.seat(), pv@, true),
{
    let ghost whole = variation_text(*rules, board.seat(), pv@, true);
    let mut out = String::new();
    let mut cur: Board = *board;
    let mut i: usize = 0;
    proof {
        use_type_invariant(board);
        assert(pv@.skip(0) =~= pv@);
        assert(out@ + whole =~= whole);
    }
    while i < pv.len()
        invariant
            cur.wf(),
            i <= pv@.len(),
            whole == variation_text(*rules, board.seat(), pv@, true),
            out@ + variation_text(*rules, cur.seat(), pv@.skip(i as int), i == 0) == whole,
        decreases pv@.len() - i,
    {
        let ghost rest = pv@.skip(i as int);
        proof {
            cur.lemma_seen();
            assert(rest[0] == pv@[i as int]);
        }
        let mv: usize = pv[i];
        let p = cur.turn();
        if cur.is_terminal() || mv >= cur.pits_per_side() || cur.pit(p, mv) == 0 {
            assert(out@ =~= whole);
            return out;
        }
        let ghost before = out@;
        if i > 0 {
            out.append("  →  ");
        }
        let next = push_step(&mut out, &cur, rules, mv);
        proof {
            lemma_variation_step(*rules, cur.seat(), rest, i == 0, before, out@, next.seat());
            assert(rest.drop_first() =~= pv@.skip(i + 1));
        }
        cur = next;
        i = i + 1;
    }
    assert(out@ =~= whole);
    out
}

/// The magnitude of a number.
pub open spec fn magnitude(v: int) -> int {
    if v < 0 {
        -v
    } else {
        v
    }
}

/// The sign of a number.
pub open spec fn sign_text(v: int) -> Seq<char> {
    if v >= 0 {
        "+"@
    } else {
        "-"@
    }
}

/// How the analysis was made, and how much work it was.
pub open spec fn heading_text(a: Analysis) -> Seq<char> {
    "Analysis mode: "@ + (if a.exact {
        "EXACT (solved to game end)"@
    } else {
        "HEURISTIC (depth "@ + text::decimal(
            match a.depth {
                Some(d) => d as int,
                None => 0,
            },
        ) + " plies — not provably optimal)"@
    }) + "\nNodes searched: "@ + text::decimal(a.nodes as int) + "\n\n"@
}

/// The result when there is nothing to play.
pub open spec fn terminal_text(s0: int, s1: int, mover: Player, o: Outcome) -> Seq<char> {
    "Position is TERMINAL — no moves available.\nFinal score: P0 "@ + text::decimal(s0) + " — P1 "@
        + text::decimal(s1) + "\nResult for "@ + mover.label_text() + ": "@ + outcome_text(o) + "\n"@
}

/// The headline result.
pub open spec fn headline_text(mover: Player, exact: bool, v: int, o: Outcome) -> Seq<char> {
    if exact {
        "Result for "@ + mover.label_text() + ": "@ + outcome_text(o) + " (perfect play ends "@
            + sign_text(v) + " "@ + text::decimal(magnitude(v)) + " seed"@ + (if magnitude(v) == 1 {
            ""@
        } else {
            "s"@
        }) + ")\n"@
    } else {
        "Best guess for "@ + mover.label_text() + ": "@ + outcome_text(o) + " (heuristic score "@
            + text::signed_decimal(v) + ")\n"@
    }
}

/// One row of the table of moves. Inferior moves carry only an upper bound.
pub open spec fn eval_row(top: bool, exact: bool, m: MoveEval) -> Seq<char> {
    (if top {
        "  * pit "@
    } else {
        "    pit "@
    }) + text::decimal(m.pit as int) + ": "@ + (if m.bound {
        "≤ "@
    } else {
        ""@
    }) + sign_text(m.value as int) + text::decimal(magnitude(m.value as int)) + (if exact {
        " seeds"@
    } else {
        " score"@
    }) + tags_text(m) + "\n"@
}

/// The table of moves, best first.
pub open spec fn eval_rows(exact: bool, evals: Seq<MoveEval>) -> Seq<char>
    decreases evals.len(),
{
    if evals.len() == 0 {
        Seq::empty()
    } else {
        eval_rows(exact, evals.drop_last()) + eval_row(evals.len() == 1, exact, evals.last())
    }
}

/// Some move carries only an upper bound.
pub open spec fn any_bound(evals: Seq<MoveEval>) -> bool {
    exists|k: int| 0 <= k < evals.len() && (#[trigger] evals[k]).bound
}

/// The outcome of a value.
pub open spec fn outcome_of(v: int) -> Outcome {
    if v > 0 {
        Outcome::Win
    } else if v < 0 {
        Outcome::Loss
    } else {
        Outcome::Draw
    }
}

/// The explanation of upper bounds, where there are any.
pub open spec fn bound_note(evals: Seq<MoveEval>) -> Seq<char> {
    if any_bound(evals) {
        "  (≤ marks moves proven no better than the best; exact value not computed)\n"@
    } else {
        Seq::empty()
    }
}

/// The principal variation, where there is one.
pub open spec fn pv_part(rules: Rules, at: Seat, pv: Seq<usize>) -> Seq<char> {
    if pv.len() > 0 {
        "\nPrincipal variation:\n  "@ + variation_text(rules, at, pv, true) + "\n"@
    } else {
        Seq::empty()
    }
}

/// The report of an analysis whose best move is `m`.
pub open spec fn best_text(rules: Rules, at: Seat, a: Analysis, m: usize) -> Seq<char> {
    headline_text(at.mover, a.exact, a.value as int, outcome_of(a.value as int)) + (
    "Best move: pit "@ + (text::decimal(m as int) + ("\n\nMove evaluations (best first):\n"@ + (
    eval_rows(a.exact, a.move_evals@) + bound_note(a.move_evals@) + pv_part(rules, at, a.pv@)))))
}

/// The report of an analysis of a board: `at` is the position, `s0` and `s1` the final
/// scores if it is over.
pub open spec fn analysis_text(rules: Rules, at: Seat, s0: int, s1: int, a: Analysis) -> Seq<char> {
    heading_text(a) + match a.best_move {
        None => terminal_text(s0, s1, at.mover, outcome_of(a.value as int)),
        Some(m) => best_text(rules, at, a, m),
    }
}

/// The magnitude of a number.
fn magnitude_of(v: i32) -> (m: u64)
    ensures
        m == magnitude(v as int),
{
    if v < 0 {
        (-(v as i64)) as u64
    } else {
        v as u64
    }
}

fn push_sign(out: &mut String, v: i32)
    ensures
        final(out)@ == old(out)@ + sign_text(v as int),
{
    if v >= 0 {
        out.append("+");
    } else {
        out.append("-");
    }
}

fn push_heading(out: &mut String, a: &Analysis)
    ensures
        final(out)@ == old(out)@ + heading_text(*a),
{
    out.append("Analysis mode: ");
    if a.exact {
        out.append("EXACT (solved to game end)");
    } else {
        out.append("HEURISTIC (depth ");
        let d: u32 = match a.depth {
            Some(d) => d,
            None => 0,
        };
        text::push_decimal(out, d as u64);
        out.append(" plies — not provably optimal)");
    }
    out.append("\nNodes searched: ");
    text::push_decimal(out, a.nodes);
    out.append("\n\n");
    assert(out@ =~= old(out)@ + heading_text(*a));
}

fn push_terminal(out: &mut String, board: &Board, o: Outcome)
    ensures
        ({
            let s0 = model::total(model::mine(board.seen_by(Player::P0))) + model::bank(
                board.seen_by(Player::P0),
            );
            let s1 = model::total(model::mine(board.seen_by(Player::P1))) + model::bank(
                board.seen_by(Player::P1),
            );
            final(out)@ == old(out)@ + terminal_text(s0, s1, board.mover(), o)
        }),
{
    let (s0, s1) = board.final_scores();
    out.append("Position is TERMINAL — no moves available.\nFinal score: P0 ");
    text::push_decimal(out, s0 as u64);
    out.append(" — P1 ");
    text::push_decimal(out, s1 as u64);
    out.append("\nResult for ");
    out.append(board.turn().label());
    out.append(": ");
    out.append(outcome_word(o));
    out.append("\n");
    assert(out@ =~= old(out)@ + terminal_text(s0 as int, s1 as int, board.mover(), o));
}

fn push_headline(out: &mut String, mover: Player, a: &Analysis)
    ensures
        final(out)@ == old(out)@ + headline_text(
            mover,
            a.exact,
            a.value as int,
            outcome_of(a.value as int),
        ),
{
    let o = a.outcome();
    match a.margin_seeds() {
        Some(m) => {
            out.append("Result for ");
            out.append(mover.label());
            out.append(": ");
            out.append(outcome_word(o));
            out.append(" (perfect play ends ");
            push_sign(out, m);
            out.append(" ");
            let by = magnitude_of(m);
            text::push_decimal(out, by);
            out.append(" seed");
            if by == 1 {
                out.append("");
            } else {
                out.append("s");
            }
            out.append(")\n");
        },
        None => {
            out.append("Best guess for ");
            out.append(mover.label());
            out.append(": ");
            out.append(outcome_word(o));
            out.append(" (heuristic score ");
            text::push_signed(out, a.value as i64);
            out.append(")\n");
        },
    }
    assert(out@ =~= old(out)@ + headline_text(
        mover,
        a.exact,
        a.value as int,
        outcome_of(a.value as int),
    ));
}

fn push_eval(out: &mut String, top: bool, exact: bool, m: &MoveEval)
    ensures
        final(out)@ == old(out)@ + eval_row(top, exact, *m),
{
    if top {
        out.append("  * pit ");
    } else {
        out.append("    pit ");
    }
    text::push_decimal(out, m.pit as u64);
    out.append(": ");
    if m.bound {
        out.append("≤ ");
    } else {
        out.append("");
    }
    push_sign(out, m.value);
    text::push_decimal(out, magnitude_of(m.value));
    if exact {
        out.append(" seeds");
    } else {
        out.append(" score");
    }
    out.append(move_tags(m));
    out.append("\n");
    assert(out@ =~= old(out)@ + eval_row(top, exact, *m));
}

fn push_evals(out: &mut String, exact: bool, evals: &Vec<MoveEval>)
    ensures
        final(out)@ == old(out)@ + (eval_rows(exact, evals@) + bound_note(evals@)),
{
    let ghost start = out@;
    let mut bound = false;
    let mut i: usize = 0;
    assert(evals@.take(0) =~= Seq::<MoveEval>::empty());
    assert(start + eval_rows(exact, evals@.take(0)) =~= start);
    while i < evals.len()
        invariant
            i <= evals@.len(),
            out@ == start + eval_rows(exact, evals@.take(i as int)),
            bound == exists|k: int| 0 <= k < i && (#[trigger] evals@[k]).bound,
        decreases evals@.len() - i,
    {
        push_eval(out, i == 0, exact, &evals[i]);
        proof {
            assert(evals@.take(i + 1).drop_last() =~= evals@.take(i as int));
            assert(out@ =~= start + eval_rows(exact, evals@.take(i + 1)));
            assert(evals@[i as int].bound ==> exists|k: int|
                0 <= k < i + 1 && (#[trigger] evals@[k]).bound);
        }
        if evals[i].bound {
            bound = true;
        }
        i = i + 1;
    }
    assert(evals@.take(i as int) =~= evals@);
    if bound {
        out.append("  (≤ marks moves proven no better than the best; exact value not computed)\n");
    }
    assert(out@ =~= start + (eval_rows(exact, evals@) + bound_note(evals@)));
}

/// Pieces added one after another are added as one.
proof fn lemma_fold(
    start: Seq<char>,
    a: Seq<char>,
    b: Seq<char>,
    c: Seq<char>,
    d: Seq<char>,
    e: Seq<char>,
    f: Seq<char>,
)
    ensures
        start + a + b + c + d + e + f == start + (a + (b + (c + (d + (e + f))))),
{
    text::lemma_join(start + a + b + c + d, e, f);
    text::lemma_join(start + a + b + c, d, e + f);
    text::lemma_join(start + a + b, c, d + (e + f));
    text::lemma_join(start + a, b, c + (d + (e + f)));
    text::lemma_join(start, a, b + (c + (d + (e + f))));
}

fn push_pv(out: &mut String, board: &Board, rules: &Rules, pv: &Vec<usize>)
    ensures
        final(out)@ == old(out)@ + pv_part(*rules, board.seat(), pv@),
{
    if pv.len() > 0 {
        out.append("\nPrincipal variation:\n  ");
        let line = render_pv(board, rules, pv);
        out.append(line.as_str());
        out.append("\n");
    }
    assert(out@ =~= old(out)@ + pv_part(*rules, board.seat(), pv@));
}

fn push_best(out: &mut String, board: &Board, rules: &Rules, a: &Analysis, m: usize)
    ensures
        final(out)@ == old(out)@ + best_text(*rules, board.seat(), *a, m),
{
    let ghost start = out@;
    push_headline(out, board.turn(), a);
    out.append("Best move: pit ");
    text::push_decimal(out, m as u64);
    out.append("\n\nMove evaluations (best first):\n");
    push_evals(out, a.exact, &a.move_evals);
    push_pv(out, board, rules, &a.pv);
    proof {
        let head = headline_text(
            board.mover(),
            a.exact,
            a.value as int,
            outcome_of(a.value as int),
        );
        let rows = eval_rows(a.exact, a.move_evals@) + bound_note(a.move_evals@);
        lemma_fold(
            start,
            head,
            "Best move: pit "@,
            text::decimal(m as int),
            "\n\nMove evaluations (best first):\n"@,
            rows,
            pv_part(*rules, board.seat(), a.pv@),
        );
    }
}

/// Render an analysis: how it was made, the result, the best move, the table of moves and
/// the principal variation.
pub fn render_analysis(board: &Board, rules: &Rules, a: &Analysis) -> (s: String)
    ensures
        ({
            let s0 = model::total(model::mine(board.seen_by(Player::P0))) + model::bank(
                board.seen_by(Player::P0),
            );
            let s1 = model::total(model::mine(board.seen_by(Player::P1))) + model::bank(
                board.seen_by(Player::P1),
            );
            s@ == analysis_text(*rules, board.seat(), s0, s1, *a)
        }),
        ({
            let head = "Analysis mode: "@ + (if a.exact {
                "EXACT (solved to game end)"@
            } else {
                "HEURISTIC (depth "@ + text::decimal(
                    match a.depth {
                        Some(d) => d as int,
                        None => 0,
                    },
                ) + " plies — not provably optimal)"@
            }) + "\nNodes searched: "@ + text::decimal(a.nodes as int) + "\n\n"@;
            let name = match board.mover() {
                Player::P0 => "P0 (South): "@,
                Player::P1 => "P1 (North): "@,
            };
            let line = head + (if a.exact {
                "Result for "@
            } else {
                "Best guess for "@
            }) + name;
            a.best_move is Some ==> {
                &&& (line + "WIN ("@).is_prefix_of(s@) <==> a.value > 0
                &&& (line + "LOSS ("@).is_prefix_of(s@) <==> a.value < 0
                &&& (line + "DRAW ("@).is_prefix_of(s@) <==> a.value == 0
            }
        }),
{
    let mut out = String::new();
    push_heading(&mut out, a);
    assert(out@ =~= heading_text(*a));
    match a.best_move {
        None => {
            push_terminal(&mut out, board, a.outcome());
        },
        Some(m) => {
            push_best(&mut out, board, rules, a, m);
        },
    }
    proof {
        lemma_headline(*rules, board.seat(), 0, 0, *a);
    }
    out
}

// ---------------------------------------------------------------------------
// Laws of reports
// ---------------------------------------------------------------------------

/// A text that goes on after `head` with `word` begins with `head` and `word`, and not with
/// `head` and a text of another first character.
proof fn lemma_begins(head: Seq<char>, word: Seq<char>, rest: Seq<char>)
    requires
        word.len() > 0,
    ensures
        (head + word).is_prefix_of(head + (word + rest)),
        forall|other: Seq<char>|
            other.len() > 0 && other[0] != word[0] ==> !(#[trigger] (head + other)).is_prefix_of(
                head + (word + rest),
            ),
{
    let whole = head + (word + rest);
    assert(whole.subrange(0, (head + word).len() as int) =~= head + word);
    assert forall|other: Seq<char>|
        other.len() > 0 && other[0] != word[0] implies !(#[trigger] (head + other)).is_prefix_of(
        whole,
    ) by {
        let k = head.len() as int;
        if (head + other).is_prefix_of(whole) {
            let cut = whole.subrange(0, (head + other).len() as int);
            assert(cut[k] == (head + other)[k]);
            assert(cut[k] == whole[k]);
        }
    }
}

proof fn lemma_labels()
    ensures
        Player::P0.label_text() + ": "@ == "P0 (South): "@,
        Player::P1.label_text() + ": "@ == "P1 (North): "@,
        "WIN"@ + " ("@ == "WIN ("@,
        "LOSS"@ + " ("@ == "LOSS ("@,
        "DRAW"@ + " ("@ == "DRAW ("@,
        "WIN ("@.len() > 0 && "WIN ("@[0] == 'W',
        "LOSS ("@.len() > 0 && "LOSS ("@[0] == 'L',
        "DRAW ("@.len() > 0 && "DRAW ("@[0] == 'D',
        " (perfect play ends "@ == " ("@ + "perfect play ends "@,
        " (heuristic score "@ == " ("@ + "heuristic score "@,
{
    reveal_strlit("P0 (South)");
    reveal_strlit("P1 (North)");
    reveal_strlit(": ");
    reveal_strlit("P0 (South): ");
    reveal_strlit("P1 (North): ");
    reveal_strlit("WIN");
    reveal_strlit("LOSS");
    reveal_strlit("DRAW");
    reveal_strlit(" (");
    reveal_strlit("WIN (");
    reveal_strlit("LOSS (");
    reveal_strlit("DRAW (");
    reveal_strlit("perfect play ends ");
    reveal_strlit(" (perfect play ends ");
    reveal_strlit("heuristic score ");
    reveal_strlit(" (heuristic score ");
}

/// The headline names the outcome by the sign of the value: a win if it is positive, a loss
/// if it is negative and a draw if it is zero. That holds of the result of an exact analysis
/// and of the best guess of a heuristic one.
pub proof fn lemma_headline(rules: Rules, at: Seat, s0: int, s1: int, a: Analysis)
    ensures
        ({
            let head = "Analysis mode: "@ + (if a.exact {
                "EXACT (solved to game end)"@
            } else {
                "HEURISTIC (depth "@ + text::decimal(
                    match a.depth {
                        Some(d) => d as int,
                        None => 0,
                    },
                ) + " plies — not provably optimal)"@
            }) + "\nNodes searched: "@ + text::decimal(a.nodes as int) + "\n\n"@;
            let name = match at.mover {
                Player::P0 => "P0 (South): "@,
                Player::P1 => "P1 (North): "@,
            };
            let line = head + (if a.exact {
                "Result for "@
            } else {
                "Best guess for "@
            }) + name;
            a.best_move is Some ==> {
                &&& (line + "WIN ("@).is_prefix_of(analysis_text(rules, at, s0, s1, a)) <==> a.value > 0
                &&& (line + "LOSS ("@).is_prefix_of(analysis_text(rules, at, s0, s1, a)) <==> a.value < 0
                &&& (line + "DRAW ("@).is_prefix_of(analysis_text(rules, at, s0, s1, a)) <==> a.value == 0
            }
        }),
{
    lemma_labels();
    if a.best_move is Some {
        let m = a.best_move.unwrap();
        let v = a.value as int;
        let head = heading_text(a);
        let mode = if a.exact {
            "Result for "@
        } else {
            "Best guess for "@
        };
        let label = at.mover.label_text();
        let name = label + ": "@;
        let line = head + mode + name;
        let o = outcome_text(outcome_of(v));
        let word = o + " ("@;
        let tail = if a.exact {
            "perfect play ends "@
        } else {
            "heuristic score "@
        };
        let end = if a.exact {
            sign_text(v) + " "@ + text::decimal(magnitude(v)) + " seed"@ + (if magnitude(v) == 1 {
                ""@
            } else {
                "s"@
            }) + ")\n"@
        } else {
            text::signed_decimal(v) + ")\n"@
        };
        let headline = headline_text(at.mover, a.exact, v, outcome_of(v));
        assert(headline == mode + label + ": "@ + o + (" ("@ + tail) + end) by {
            let p = mode + label + ": "@ + o + (" ("@ + tail);
            if a.exact {
                let s = sign_text(v);
                let d = text::decimal(magnitude(v));
                let e = if magnitude(v) == 1 {
                    ""@
                } else {
                    "s"@
                };
                text::lemma_join(p, s, " "@);
                text::lemma_join(p, s + " "@, d);
                text::lemma_join(p, s + " "@ + d, " seed"@);
                text::lemma_join(p, s + " "@ + d + " seed"@, e);
                text::lemma_join(p, s + " "@ + d + " seed"@ + e, ")\n"@);
            } else {
                text::lemma_join(p, text::signed_decimal(v), ")\n"@);
            }
        }
        let more = "Best move: pit "@ + (text::decimal(m as int) + (
        "\n\nMove evaluations (best first):\n"@ + (eval_rows(a.exact, a.move_evals@) + bound_note(
            a.move_evals@,
        ) + pv_part(rules, at, a.pv@))));
        let rest = tail + end + more;
        assert(analysis_text(rules, at, s0, s1, a) == head + (headline + more));
        lemma_sorted(head, mode, label, ": "@, o, " ("@, tail, end, more);
        assert(analysis_text(rules, at, s0, s1, a) == line + (word + rest));
        lemma_begins(line, word, rest);
    }
}

proof fn lemma_sorted(
    h: Seq<char>,
    m: Seq<char>,
    l: Seq<char>,
    c: Seq<char>,
    o: Seq<char>,
    p: Seq<char>,
    t: Seq<char>,
    e: Seq<char>,
    r: Seq<char>,
)
    ensures
        h + ((m + l + c + o + (p + t) + e) + r) == (h + m + (l + c)) + ((o + p) + (t + e + r)),
{
    let x = m + (l + c);
    text::lemma_join(m, l, c);
    text::lemma_join(x, o, p + t);
    text::lemma_join(o, p, t);
    text::lemma_join(x, (o + p) + t, e);
    text::lemma_join(o + p, t, e);
    text::lemma_join(x, (o + p) + (t + e), r);
    text::lemma_join(o + p, t + e, r);
    text::lemma_join(h, x, (o + p) + (t + e + r));
    text::lemma_join(h, m, l + c);
}

/// The rest of the headline: an exact result says by how many seeds perfect play is won or
/// lost, a best guess gives its score.
pub proof fn lemma_headline_value(mover: Player, v: int)
    ensures
        headline_text(mover, true, v, outcome_of(v)) == "Result for "@ + (match mover {
            Player::P0 => "P0 (South)"@,
            Player::P1 => "P1 (North)"@,
        }) + ": "@ + (if v > 0 {
            "WIN"@
        } else if v < 0 {
            "LOSS"@
        } else {
            "DRAW"@
        }) + " (perfect play ends "@ + (if v < 0 {
            "-"@
        } else {
            "+"@
        }) + " "@ + (if v < 0 {
            text::decimal(-v)
        } else {
            text::decimal(v)
        }) + " seed"@ + (if v == 1 || v == -1 {
            ""@
        } else {
            "s"@
        }) + ")\n"@,
        headline_text(mover, false, v, outcome_of(v)) == "Best guess for "@ + (match mover {
            Player::P0 => "P0 (South)"@,
            Player::P1 => "P1 (North)"@,
        }) + ": "@ + (if v > 0 {
            "WIN"@
        } else if v < 0 {
            "LOSS"@
        } else {
            "DRAW"@
        }) + " (heuristic score "@ + text::signed_decimal(v) + ")\n"@,
{
}

/// The report of a position where there is nothing to play: the final scores, P0's first,
/// and the outcome for the player to move by the sign of the value.
pub proof fn lemma_terminal_report(rules: Rules, at: Seat, s0: int, s1: int, a: Analysis)
    requires
        a.best_move is None,
    ensures
        analysis_text(rules, at, s0, s1, a) == heading_text(a) + (
        "Position is TERMINAL — no moves available.\nFinal score: P0 "@ + text::decimal(s0)
            + " — P1 "@ + text::decimal(s1) + "\nResult for "@ + (match at.mover {
            Player::P0 => "P0 (South)"@,
            Player::P1 => "P1 (North)"@,
        }) + ": "@ + (if a.value > 0 {
            "WIN"@
        } else if a.value < 0 {
            "LOSS"@
        } else {
            "DRAW"@
        }) + "\n"@),
{
}

/// The report of a position with a best move: the headline, the move, the table of moves, a
/// note if the table holds an upper bound, and the line if there is one.
pub proof fn lemma_best_report(rules: Rules, at: Seat, s0: int, s1: int, a: Analysis)
    requires
        a.best_move is Some,
    ensures
        analysis_text(rules, at, s0, s1, a) == heading_text(a) + (headline_text(
            at.mover,
            a.exact,
            a.value as int,
            outcome_of(a.value as int),
        ) + ("Best move: pit "@ + (text::decimal(a.best_move->Some_0 as int) + (
        "\n\nMove evaluations (best first):\n"@ + (eval_rows(a.exact, a.move_evals@) + (if exists|
            k: int,
        |
            0 <= k < a.move_evals@.len() && (#[trigger] a.move_evals@[k]).bound {
            "  (≤ marks moves proven no better than the best; exact value not computed)\n"@
        } else {
            Seq::empty()
        }) + (if a.pv@.len() > 0 {
            "\nPrincipal variation:\n  "@ + variation_text(rules, at, a.pv@, true) + "\n"@
        } else {
            Seq::empty()
        })))))),
{
}

/// A row of the table of moves: a star marks the first, the value has its sign before it,
/// and an upper bound is marked as one. The rows come in the order of the moves.
pub proof fn lemma_table(top: bool, exact: bool, m: MoveEval, before: Seq<MoveEval>)
    ensures
        eval_row(top, exact, m) == (if top {
            "  * pit "@
        } else {
            "    pit "@
        }) + text::decimal(m.pit as int) + ": "@ + (if m.bound {
            "≤ "@
        } else {
            ""@
        }) + (if m.value < 0 {
            "-"@
        } else {
            "+"@
        }) + (if m.value < 0 {
            text::decimal(-m.value)
        } else {
            text::decimal(m.value as int)
        }) + (if exact {
            " seeds"@
        } else {
            " score"@
        }) + (if m.extra_turn {
            if m.captured {
                "  [extra turn, capture]"@
            } else {
                "  [extra turn]"@
            }
        } else {
            if m.captured {
                "  [capture]"@
            } else {
                ""@
            }
        }) + "\n"@,
        eval_rows(exact, Seq::empty()) == Seq::<char>::empty(),
        eval_rows(exact, seq![m]) == eval_row(true, exact, m),
        before.len() > 0 ==> eval_rows(exact, before.push(m)) == eval_rows(exact, before) + eval_row(
            false,
            exact,
            m,
        ),
{
    assert(before.push(m).drop_last() =~= before);
    assert(seq![m].drop_last() =~= Seq::<MoveEval>::empty());
    assert(eval_rows(exact, seq![m].drop_last()) + eval_row(true, exact, m) =~= eval_row(
        true,
        exact,
        m,
    ));
}

/// A line of moves, as far as each is one that the player whose turn it is can play: every
/// move with its player, and a sign if it earns an extra turn or, failing that, captures.
pub proof fn lemma_variation(rules: Rules, at: Seat, pv: Seq<usize>)
    requires
        model::valid(at.pos),
    ensures
        pv.len() == 0 ==> variation_text(rules, at, pv, true) == Seq::<char>::empty(),
        model::over(at.pos) ==> variation_text(rules, at, pv, true) == Seq::<char>::empty(),
        pv.len() > 0 && !(pv[0] < at.pos.len() / 2 - 1 && at.pos[pv[0] as int] > 0)
            ==> variation_text(rules, at, pv, true) == Seq::<char>::empty(),
        pv.len() > 0 && !model::over(at.pos) && pv[0] < at.pos.len() / 2 - 1 && at.pos[pv[0] as int]
            > 0 ==> {
            let m = pv[0] as int;
            let move_text = (match at.mover {
                Player::P0 => "P0"@,
                Player::P1 => "P1"@,
            }) + ":"@ + text::decimal(m) + (if (m + at.pos[m]) % (at.pos.len() - 1) == at.pos.len()
                / 2 - 1 {
                "↻"@
            } else if model::captures(rules, at.pos, m) {
                "×"@
            } else {
                ""@
            });
            let rest = variation_text(rules, at.moved(rules, m), pv.skip(1), true);
            &&& rest.len() > 0 ==> variation_text(rules, at, pv, true) == move_text + "  →  "@ + rest
            &&& rest.len() == 0 ==> variation_text(rules, at, pv, true) == move_text
        },
{
    reveal(step_text);
    if pv.len() > 0 && !model::over(at.pos) && model::legal(at.pos, pv[0] as int) {
        let m = pv[0] as int;
        model::lemma_extra_turn(at.pos, m);
        let next = at.moved(rules, m);
        assert(pv.skip(1) =~= pv.drop_first());
        let rest = variation_text(rules, next, pv.skip(1), true);
        let step = step_text(rules, at, m);
        assert(Seq::<char>::empty() + step =~= step);
        let later = variation_text(rules, next, pv.skip(1), false);
        assert(variation_text(rules, at, pv, true) == step + later);
        if pv.skip(1).len() == 0 || model::over(next.pos) || !model::legal(
            next.pos,
            pv.skip(1)[0] as int,
        ) {
            assert(later == Seq::<char>::empty());
            assert(step + Seq::<char>::empty() =~= step);
            assert(rest.len() == 0);
        } else {
            let first = step_text(rules, next, pv.skip(1)[0] as int);
            let more = variation_text(
                rules,
                next.moved(rules, pv.skip(1)[0] as int),
                pv.skip(1).drop_first(),
                false,
            );
            reveal_strlit(":");
            assert(first.len() > 0);
            assert(Seq::<char>::empty() + first =~= first);
            assert(rest == first + more);
            assert(later == "  →  "@ + first + more);
            text::lemma_join("  →  "@, first, more);
            text::lemma_join(step, "  →  "@, first + more);
        }
    }
}

proof fn lemma_repeated(c: char, k: int)
    ensures
        repeated(c, k).len() == if k <= 0 {
            0
        } else {
            k
        },
        forall|j: int| 0 <= j < k ==> #[trigger] repeated(c, k)[j] == c,
    decreases k,
{
    if k > 0 {
        lemma_repeated(c, k - 1);
    }
}

/// A number in `w` columns: its digits stand on the right, with spaces before them, and a
/// number that needs more columns gets them.
pub proof fn lemma_columns(n: int, w: int)
    ensures
        ({
            let d = text::decimal(n);
            let t = padded(n, w);
            &&& d.len() >= w ==> t == d
            &&& d.len() < w ==> t.len() == w && t.skip(w - d.len()) == d && forall|j: int|
                0 <= j < w - d.len() ==> #[trigger] t[j] == ' '
        }),
{
    let d = text::decimal(n);
    let t = padded(n, w);
    lemma_repeated(' ', w - d.len());
    if d.len() >= w {
        assert(t =~= d);
    } else {
        assert(t.skip(w - d.len()) =~= d);
    }
}

/// A row of pits is the counts in three columns each, with a space between them.
pub proof fn lemma_pit_row(counts: Seq<int>)
    ensures
        pit_row(counts) == text::rejoined(counts.map_values(|c: int| padded(c, 3)), ' '),
    decreases counts.len(),
{
    if counts.len() > 1 {
        reveal_strlit(" ");
        let front = counts.drop_last();
        lemma_pit_row(front);
        assert(counts.map_values(|c: int| padded(c, 3)).drop_last() =~= front.map_values(
            |c: int| padded(c, 3),
        ));
        assert(pit_row(front) + " "@ =~= pit_row(front).push(' '));
    }
}

/// The diagram of the cells `s` in board order: P1's pits from the last to the first on top,
/// P0's from the first to the last below, and between them P1's store on the left, P0's on
/// the right and a rule as long as a row.
pub proof fn lemma_diagram(n: int, s: Seq<int>)
    requires
        n >= 1,
        s.len() == 2 * n + 2,
    ensures
        ({
            let north = Seq::new(n as nat, |j: int| padded(s[2 * n - j], 3));
            let south = Seq::new(n as nat, |j: int| padded(s[j], 3));
            let rule = Seq::new((4 * n - 1) as nat, |j: int| '-');
            diagram(s) == "        N (P1)\n"@ + "       "@ + text::rejoined(north, ' ') + "\n"@
                + "  "@ + padded(s[2 * n + 1], 2) + " "@ + rule + " "@ + padded(s[n], 2)
                + "   (P1 store | P0 store)\n"@ + "       "@ + text::rejoined(south, ' ') + "\n"@
                + "        S (P0)"@
        }),
{
    let rule = Seq::new((4 * n - 1) as nat, |j: int| '-');
    lemma_repeated('-', 4 * n - 1);
    assert(repeated('-', 4 * n - 1) =~= rule);
    let top = model::theirs(s).reverse();
    let low = model::mine(s);
    lemma_pit_row(top);
    lemma_pit_row(low);
    assert(top.map_values(|c: int| padded(c, 3)) =~= Seq::new(
        n as nat,
        |j: int| padded(s[2 * n - j], 3),
    ));
    assert(low.map_values(|c: int| padded(c, 3)) =~= Seq::new(n as nat, |j: int| padded(s[j], 3)));
}

} // verus!
