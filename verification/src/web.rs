//! The engine as a web page sees it: requests in plain values, replies in JSON.

use vstd::prelude::*;

use crate::analysis::{Analysis, MoveEval};
use crate::board;
use crate::board::{Board, Player, Rules, Seat};
use crate::model;
use crate::notation;
use crate::report;
use crate::searcher;
use crate::solver;
use crate::tablebase::Tablebase;
use crate::text;
use crate::value;

verus! {

// ---------------------------------------------------------------------------
// Requests
// ---------------------------------------------------------------------------

/// The side to move of a request: 1 is P1, everything else P0.
pub open spec fn player_of(turn: u32) -> Player {
    if turn == 1 {
        Player::P1
    } else {
        Player::P0
    }
}

/// The side to move of a request: 1 is P1, everything else P0.
pub fn player(turn: u32) -> (p: Player)
    ensures
        p == player_of(turn),
        p is P1 <==> turn == 1,
{
    if turn == 1 {
        Player::P1
    } else {
        Player::P0
    }
}

/// The rules of a request: `capture_empty` allows captures when the opposite pit is
/// empty.
pub open spec fn rules_of(capture_empty: u32) -> Rules {
    Rules { capture_requires_nonempty_opposite: capture_empty == 0 }
}

/// The rules of a request: `capture_empty` allows captures when the opposite pit is
/// empty.
pub fn rules(capture_empty: u32) -> (r: Rules)
    ensures
        r == rules_of(capture_empty),
        r.capture_requires_nonempty_opposite <==> capture_empty == 0,
{
    Rules { capture_requires_nonempty_opposite: capture_empty == 0 }
}

/// The position that a player who is to move sees on these cells.
pub open spec fn seat_of(cells: Seq<int>, mover: Player) -> Seat {
    Seat {
        mover,
        pos: match mover {
            Player::P0 => cells,
            Player::P1 => model::flip(cells),
        },
    }
}

// ---------------------------------------------------------------------------
// Errors
// ---------------------------------------------------------------------------

/// A message with its double quotes made single.
pub open spec fn unquoted(s: Seq<char>) -> Seq<char> {
    Seq::new(
        s.len(),
        |i: int|
            if s[i] == '"' {
                '\''
            } else {
                s[i]
            },
    )
}

/// The reply that reports an error.
pub open spec fn error_text(msg: Seq<char>) -> Seq<char> {
    "{\"error\":\""@ + unquoted(msg) + "\"}"@
}

/// The reply that reports an error.
pub fn json_error(msg: &str) -> (s: String)
    ensures
        s@ == error_text(msg@),
{
    let mut out = String::from_str("{\"error\":\"");
    let ghost start = out@;
    let chars = text::characters(msg);
    let mut i: usize = 0;
    assert(start + unquoted(msg@.take(0)) =~= start);
    while i < chars.len()
        invariant
            chars@ == msg@,
            i <= chars@.len(),
            out@ == start + unquoted(msg@.take(i as int)),
        decreases chars@.len() - i,
    {
        if chars[i] == '"' {
            out.append("'");
            proof {
                reveal_strlit("'");
            }
        } else {
            out.append(msg.substring_char(i, i + 1));
        }
        assert(out@ =~= start + unquoted(msg@.take(i + 1)));
        i = i + 1;
    }
    assert(msg@.take(i as int) =~= msg@);
    out.append("\"}");
    out
}

// ---------------------------------------------------------------------------
// Positions
// ---------------------------------------------------------------------------

/// The number of a side: 1 for P1, 0 for P0.
pub open spec fn side_number(p: Player) -> int {
    match p {
        Player::P0 => 0,
        Player::P1 => 1,
    }
}

/// The number of the side to move.
pub fn side(b: &Board) -> (n: u32)
    ensures
        n == side_number(b.mover()),
        b.mover() is P0 ==> n == 0,
        b.mover() is P1 ==> n == 1,
{
    match b.turn() {
        Player::P0 => 0,
        Player::P1 => 1,
    }
}

/// The cells in board order of the position that a seat sees.
pub open spec fn cells_of(at: Seat) -> Seq<int> {
    match at.mover {
        Player::P0 => at.pos,
        Player::P1 => model::flip(at.pos),
    }
}

/// The part of a reply that names a position.
pub open spec fn position_text(at: Seat) -> Seq<char> {
    "{\"notation\":\""@ + notation::notation_of(cells_of(at)) + "\",\"turn\":"@ + text::decimal(
        side_number(at.mover),
    )
}

fn push_position(out: &mut String, b: &Board)
    ensures
        final(out)@ == old(out)@ + position_text(b.seat()),
{
    out.append("{\"notation\":\"");
    let cells = notation::format(b);
    out.append(cells.as_str());
    out.append("\",\"turn\":");
    text::push_decimal(out, side(b) as u64);
    proof {
        use_type_invariant(b);
        b.lemma_seen();
        assert(cells_of(b.seat()) == b.counts());
        assert(out@ =~= old(out)@ + position_text(b.seat()));
    }
}

/// The reply to a request for the opening position.
pub open spec fn start_reply(pits: int, seeds: int, turn: u32) -> Seq<char> {
    if seeds > u8::MAX {
        error_text("seeds out of range"@)
    } else {
        match board::board_error(pits, board::opening_cells(pits, seeds)) {
            Some(e) => error_text(e),
            None => position_text(seat_of(board::opening_cells(pits, seeds), player_of(turn)))
                + "}"@,
        }
    }
}

/// The opening position.
pub fn start_json(pits: u32, seeds: u32, turn: u32) -> (s: String)
    ensures
        s@ == start_reply(pits as int, seeds as int, turn),
{
    if seeds > 255 {
        return json_error("seeds out of range");
    }
    match Board::start(pits as usize, seeds as u8, player(turn)) {
        Ok(b) => {
            let mut out = String::new();
            push_position(&mut out, &b);
            out.append("}");
            assert(b.seat() == seat_of(b.counts(), player_of(turn)));
            assert(out@ =~= position_text(b.seat()) + "}"@);
            out
        },
        Err(e) => json_error(e.as_str()),
    }
}

/// A field that is true or false, after `name`.
pub open spec fn field_text(name: Seq<char>, b: bool) -> Seq<char> {
    name + text::truth(b)
}

fn push_field(out: &mut String, name: &str, b: bool)
    ensures
        final(out)@ == old(out)@ + field_text(name@, b),
{
    out.append(name);
    text::push_truth(out, b);
    proof {
        text::lemma_join(old(out)@, name@, text::truth(b));
    }
}

/// The reply to a move, where it is legal.
pub open spec fn moved_reply(rules: Rules, at: Seat, mv: int) -> Seq<char> {
    position_text(at.moved(rules, mv)) + field_text(
        ",\"extra_turn\":"@,
        model::extra_turn(at.pos, mv),
    ) + field_text(",\"captured\":"@, model::captures(rules, at.pos, mv)) + field_text(
        ",\"terminal\":"@,
        model::over(at.moved(rules, mv).pos),
    ) + "}"@
}

/// The reply to a move from a position.
pub open spec fn move_reply(rules: Rules, at: Seat, mv: int) -> Seq<char> {
    if model::over(at.pos) {
        error_text("game is already over"@)
    } else if !model::legal(at.pos, mv) {
        error_text("illegal move"@)
    } else {
        moved_reply(rules, at, mv)
    }
}

fn push_moved(out: &mut String, board: &Board, rules: &Rules, mv: usize)
    requires
        model::legal(board.pos(), mv as int),
    ensures
        final(out)@ == old(out)@ + moved_reply(*rules, board.seat(), mv as int),
{
    let r = board.apply(rules, mv);
    push_position(out, &r.board);
    push_field(out, ",\"extra_turn\":", r.extra_turn);
    push_field(out, ",\"captured\":", r.captured);
    push_field(out, ",\"terminal\":", r.board.is_terminal());
    out.append("}");
    proof {
        let start = old(out)@;
        let p = position_text(r.board.seat());
        let f = field_text(",\"extra_turn\":"@, r.extra_turn);
        let g = field_text(",\"captured\":"@, r.captured);
        let h = field_text(",\"terminal\":"@, model::over(r.board.pos()));
        text::lemma_join(start, p, f);
        text::lemma_join(start, p + f, g);
        text::lemma_join(start, p + f + g, h);
        text::lemma_join(start, p + f + g + h, "}"@);
    }
}

/// The position after playing pit `mv`, or an error if the move is illegal.
pub fn apply_json(position: &str, turn: u32, mv: u32, capture_empty: u32) -> (s: String)
    ensures
        s@ == match notation::parsed(position@) {
            Err(e) => error_text(e),
            Ok(cells) => move_reply(
                rules_of(capture_empty),
                seat_of(cells, player_of(turn)),
                mv as int,
            ),
        },
{
    let board = match notation::parse(position, player(turn)) {
        Ok(b) => b,
        Err(e) => {
            return json_error(e.as_str());
        },
    };
    proof {
        use_type_invariant(&board);
        board.lemma_seen();
        assert(board.seat() == seat_of(board.counts(), player_of(turn)));
    }
    if board.is_terminal() {
        return json_error("game is already over");
    }
    let mv: usize = mv as usize;
    if mv >= board.pits_per_side() || board.pit(board.turn(), mv) == 0 {
        return json_error("illegal move");
    }
    let mut out = String::new();
    push_moved(&mut out, &board, &rules(capture_empty), mv);
    assert(out@ =~= moved_reply(rules_of(capture_empty), board.seat(), mv as int));
    out
}

// ---------------------------------------------------------------------------
// Analyses
// ---------------------------------------------------------------------------

/// Numbers, with commas between them.
pub open spec fn number_list(items: Seq<usize>) -> Seq<char>
    decreases items.len(),
{
    if items.len() == 0 {
        Seq::empty()
    } else if items.len() == 1 {
        text::decimal(items[0] as int)
    } else {
        number_list(items.drop_last()) + (","@ + text::decimal(items.last() as int))
    }
}

/// One evaluated move.
pub open spec fn eval_text(e: MoveEval) -> Seq<char> {
    "{\"pit\":"@ + text::decimal(e.pit as int) + ",\"value\":"@ + text::signed_decimal(
        e.value as int,
    ) + field_text(",\"bound\":"@, e.bound) + field_text(",\"extra\":"@, e.extra_turn)
        + field_text(",\"capture\":"@, e.captured) + "}"@
}

/// Evaluated moves, with commas between them.
pub open spec fn eval_list(items: Seq<MoveEval>) -> Seq<char>
    decreases items.len(),
{
    if items.len() == 0 {
        Seq::empty()
    } else if items.len() == 1 {
        eval_text(items[0])
    } else {
        eval_list(items.drop_last()) + (","@ + eval_text(items.last()))
    }
}

/// The number of the best move, or -1 if there is none.
pub open spec fn best_number(best: Option<usize>) -> int {
    match best {
        Some(m) => (m as i32) as int,
        None => -1,
    }
}

/// The depth of a heuristic analysis, or -1 for an exact one.
pub open spec fn depth_number(depth: Option<u32>) -> int {
    match depth {
        Some(d) => (d as i32) as int,
        None => -1,
    }
}

/// The result of an analysis.
pub open spec fn result_text(a: Analysis) -> Seq<char> {
    "{\"exact\":"@ + text::truth(a.exact) + ",\"side\":"@ + text::decimal(
        side_number(a.side_to_move),
    ) + ",\"value\":"@ + text::signed_decimal(a.value as int) + ",\"outcome\":\""@
        + report::outcome_text(report::outcome_of(a.value as int))
}

/// The best move of an analysis, and the work it took.
pub open spec fn work_text(a: Analysis) -> Seq<char> {
    "\",\"best\":"@ + text::signed_decimal(best_number(a.best_move)) + ",\"nodes\":"@
        + text::decimal(a.nodes as int) + ",\"depth\":"@ + text::signed_decimal(
        depth_number(a.depth),
    )
}

/// An analysis.
pub open spec fn analysis_text(a: Analysis) -> Seq<char> {
    result_text(a) + work_text(a) + ",\"pv\":["@ + number_list(a.pv@) + "],\"evals\":["@
        + eval_list(a.move_evals@) + "]}"@
}

fn push_numbers(out: &mut String, items: &Vec<usize>)
    ensures
        final(out)@ == old(out)@ + number_list(items@),
{
    let ghost start = out@;
    let mut i: usize = 0;
    assert(start + number_list(items@.take(0)) =~= start);
    while i < items.len()
        invariant
            i <= items@.len(),
            out@ == start + number_list(items@.take(i as int)),
        decreases items@.len() - i,
    {
        let ghost before = out@;
        if i > 0 {
            out.append(",");
        }
        text::push_decimal(out, items[i] as u64);
        proof {
            let d = text::decimal(items@[i as int] as int);
            assert(items@.take(i + 1).drop_last() =~= items@.take(i as int));
            if i > 0 {
                text::lemma_join(before, ","@, d);
                text::lemma_join(start, number_list(items@.take(i as int)), ","@ + d);
            } else {
                assert(out@ =~= start + number_list(items@.take(1)));
            }
        }
        i = i + 1;
    }
    assert(items@.take(i as int) =~= items@);
}

fn push_eval(out: &mut String, e: &MoveEval)
    ensures
        final(out)@ == old(out)@ + eval_text(*e),
{
    out.append("{\"pit\":");
    text::push_decimal(out, e.pit as u64);
    out.append(",\"value\":");
    text::push_signed(out, e.value as i64);
    push_field(out, ",\"bound\":", e.bound);
    push_field(out, ",\"extra\":", e.extra_turn);
    push_field(out, ",\"capture\":", e.captured);
    out.append("}");
    proof {
        let start = old(out)@;
        let p = "{\"pit\":"@;
        let q = text::decimal(e.pit as int);
        let r = ",\"value\":"@;
        let v = text::signed_decimal(e.value as int);
        let f = field_text(",\"bound\":"@, e.bound);
        let g = field_text(",\"extra\":"@, e.extra_turn);
        let h = field_text(",\"capture\":"@, e.captured);
        text::lemma_join(start, p, q);
        text::lemma_join(start, p + q, r);
        text::lemma_join(start, p + q + r, v);
        text::lemma_join(start, p + q + r + v, f);
        text::lemma_join(start, p + q + r + v + f, g);
        text::lemma_join(start, p + q + r + v + f + g, h);
        text::lemma_join(start, p + q + r + v + f + g + h, "}"@);
    }
}

fn push_evals(out: &mut String, items: &Vec<MoveEval>)
    ensures
        final(out)@ == old(out)@ + eval_list(items@),
{
    let ghost start = out@;
    let mut i: usize = 0;
    assert(start + eval_list(items@.take(0)) =~= start);
    while i < items.len()
        invariant
            i <= items@.len(),
            out@ == start + eval_list(items@.take(i as int)),
        decreases items@.len() - i,
    {
        let ghost before = out@;
        if i > 0 {
            out.append(",");
        }
        push_eval(out, &items[i]);
        proof {
            let d = eval_text(items@[i as int]);
            assert(items@.take(i + 1).drop_last() =~= items@.take(i as int));
            if i > 0 {
                text::lemma_join(before, ","@, d);
                text::lemma_join(start, eval_list(items@.take(i as int)), ","@ + d);
            } else {
                assert(before =~= start);
            }
        }
        i = i + 1;
    }
    assert(items@.take(i as int) =~= items@);
}

fn push_result(out: &mut String, a: &Analysis)
    ensures
        final(out)@ == old(out)@ + result_text(*a),
{
    out.append("{\"exact\":");
    text::push_truth(out, a.exact);
    out.append(",\"side\":");
    let side: u64 = match a.side_to_move {
        Player::P0 => 0,
        Player::P1 => 1,
    };
    text::push_decimal(out, side);
    out.append(",\"value\":");
    text::push_signed(out, a.value as i64);
    out.append(",\"outcome\":\"");
    out.append(report::outcome_word(a.outcome()));
    proof {
        let start = old(out)@;
        let p = "{\"exact\":"@;
        let q = text::truth(a.exact);
        let r = ",\"side\":"@;
        let t = text::decimal(side as int);
        let u = ",\"value\":"@;
        let v = text::signed_decimal(a.value as int);
        let w = ",\"outcome\":\""@;
        text::lemma_join(start, p, q);
        text::lemma_join(start, p + q, r);
        text::lemma_join(start, p + q + r, t);
        text::lemma_join(start, p + q + r + t, u);
        text::lemma_join(start, p + q + r + t + u, v);
        text::lemma_join(start, p + q + r + t + u + v, w);
        text::lemma_join(
            start,
            p + q + r + t + u + v + w,
            report::outcome_text(report::outcome_of(a.value as int)),
        );
    }
}

fn push_work(out: &mut String, a: &Analysis)
    ensures
        final(out)@ == old(out)@ + work_text(*a),
{
    let best: i32 = match a.best_move {
        Some(m) => m as i32,
        None => -1,
    };
    let depth: i32 = match a.depth {
        Some(d) => d as i32,
        None => -1,
    };
    out.append("\",\"best\":");
    text::push_signed(out, best as i64);
    out.append(",\"nodes\":");
    text::push_decimal(out, a.nodes);
    out.append(",\"depth\":");
    text::push_signed(out, depth as i64);
    proof {
        let start = old(out)@;
        let p = "\",\"best\":"@;
        let q = text::signed_decimal(best as int);
        let r = ",\"nodes\":"@;
        let t = text::decimal(a.nodes as int);
        let u = ",\"depth\":"@;
        text::lemma_join(start, p, q);
        text::lemma_join(start, p + q, r);
        text::lemma_join(start, p + q + r, t);
        text::lemma_join(start, p + q + r + t, u);
        text::lemma_join(start, p + q + r + t + u, text::signed_decimal(depth as int));
    }
}

/// An analysis in JSON.
pub fn analysis_json(a: &Analysis) -> (s: String)
    ensures
        s@ == analysis_text(*a),
        ({
            let head = "{\"exact\":"@ + (if a.exact {
                "true"@
            } else {
                "false"@
            }) + ",\"side\":"@ + (match a.side_to_move {
                Player::P0 => "0"@,
                Player::P1 => "1"@,
            }) + ",\"value\":"@ + text::signed_decimal(a.value as int);
            &&& (head + ",\"outcome\":\"WIN\",\"best\":"@).is_prefix_of(s@) <==> a.value > 0
            &&& (head + ",\"outcome\":\"LOSS\",\"best\":"@).is_prefix_of(s@) <==> a.value < 0
            &&& (head + ",\"outcome\":\"DRAW\",\"best\":"@).is_prefix_of(s@) <==> a.value == 0
        }),
{
    let mut out = String::new();
    push_result(&mut out, a);
    assert(out@ =~= result_text(*a));
    push_work(&mut out, a);
    out.append(",\"pv\":[");
    push_numbers(&mut out, &a.pv);
    out.append("],\"evals\":[");
    push_evals(&mut out, &a.move_evals);
    out.append("]}");
    proof {
        lemma_outcome_field(*a);
    }
    out
}

/// `a` answers a request to analyze a position: it is exact and perfect if the budget
/// settles the position, and a search to the fallback depth otherwise.
pub open spec fn answers(
    rules: Rules,
    tb: Option<&Tablebase>,
    at: Seat,
    budget: u64,
    depth: u32,
    a: Analysis,
) -> bool {
    &&& a.side_to_move == at.mover
    &&& a.exact ==> a.depth is None && solver::settles(
        solver::exact_setting(rules, tb, model::pits(at.pos), budget),
        solver::matching(tb, model::pits(at.pos)),
        at.pos,
        None,
        a,
    ) && a.move_evals@.len() <= a.nodes <= budget
    &&& a.exact && (solver::matching(tb, model::pits(at.pos)) matches Some(t) ==> t.correct(rules))
        ==> a.value == value::game_value(rules, at.pos)
    &&& !a.exact ==> a.depth == Some(depth) && solver::settles(
        searcher::setting(rules, None, 0, false),
        None,
        at.pos,
        Some(depth as int),
        a,
    )
    &&& solver::ample(rules, tb, at.pos, budget) || model::over(at.pos) ==> a.exact
    &&& solver::scant(rules, tb, at.pos, budget) ==> !a.exact
    &&& a.exact == solver::affordable(rules, tb, at, budget)
    &&& a.exact ==> solver::comes_from(
        solver::exact_course(rules, tb, model::pits(at.pos), budget),
        at,
        None,
        a,
    )
    &&& !a.exact ==> solver::comes_from(
        solver::fallback_course(rules),
        at,
        Some(depth as int),
        a,
    )
    &&& model::over(at.pos) ==> a.nodes == 0
}

/// Analyze a position in notation, consulting the tablebase (if any) for the endgame.
pub fn analyze_json(
    position: &str,
    turn: u32,
    budget: u32,
    fallback_depth: u32,
    capture_empty: u32,
    tb: Option<&Tablebase>,
) -> (s: String)
    requires
        notation::parsed(position@) matches Ok(cells) ==> fallback_depth >= 1 || model::over(
            seat_of(cells, player_of(turn)).pos,
        ) || solver::ample(
            rules_of(capture_empty),
            tb,
            seat_of(cells, player_of(turn)).pos,
            budget as u64,
        ) || solver::affordable(
            rules_of(capture_empty),
            tb,
            seat_of(cells, player_of(turn)),
            budget as u64,
        ),
    ensures
        match notation::parsed(position@) {
            Err(e) => s@ == error_text(e),
            Ok(cells) => exists|a: Analysis| #[trigger]
                analysis_text(a) == s@ && answers(
                    rules_of(capture_empty),
                    tb,
                    seat_of(cells, player_of(turn)),
                    budget as u64,
                    fallback_depth,
                    a,
                ),
        },
{
    let board = match notation::parse(position, player(turn)) {
        Ok(b) => b,
        Err(e) => {
            return json_error(e.as_str());
        },
    };
    proof {
        use_type_invariant(&board);
        board.lemma_seen();
        assert(board.seat() == seat_of(board.counts(), player_of(turn)));
    }
    let a = solver::analyze_with_tb(
        &board,
        rules(capture_empty),
        budget as u64,
        fallback_depth,
        tb,
    );
    let s = analysis_json(&a);
    proof {
        assert(answers(
            rules_of(capture_empty),
            tb,
            seat_of(board.counts(), player_of(turn)),
            budget as u64,
            fallback_depth,
            a,
        ));
        assert(analysis_text(a) == s@);
    }
    s
}

// ---------------------------------------------------------------------------
// Laws of replies
// ---------------------------------------------------------------------------

/// A text that goes on after `head` with `word` begins with `head` and `word`, and not with
/// `head` and a text that differs from `word` in a character.
proof fn lemma_begins(head: Seq<char>, word: Seq<char>, rest: Seq<char>, other: Seq<char>, k: int)
    requires
        0 <= k < word.len(),
        k < other.len(),
        word[k] != other[k],
    ensures
        (head + word).is_prefix_of(head + (word + rest)),
        !(head + other).is_prefix_of(head + (word + rest)),
{
    let whole = head + (word + rest);
    assert(whole.subrange(0, (head + word).len() as int) =~= head + word);
    if (head + other).is_prefix_of(whole) {
        let cut = whole.subrange(0, (head + other).len() as int);
        assert(cut[head.len() + k] == (head + other)[head.len() + k]);
        assert(cut[head.len() + k] == whole[head.len() + k]);
    }
}

/// The outcome that a reply names is that of the value in the same reply: a positive value
/// is a win, a negative one a loss, and zero a draw.
pub proof fn lemma_outcome_field(a: Analysis)
    ensures
        ({
            let head = "{\"exact\":"@ + (if a.exact {
                "true"@
            } else {
                "false"@
            }) + ",\"side\":"@ + (match a.side_to_move {
                Player::P0 => "0"@,
                Player::P1 => "1"@,
            }) + ",\"value\":"@ + text::signed_decimal(a.value as int);
            &&& (head + ",\"outcome\":\"WIN\",\"best\":"@).is_prefix_of(analysis_text(a)) <==> a.value > 0
            &&& (head + ",\"outcome\":\"LOSS\",\"best\":"@).is_prefix_of(analysis_text(a)) <==> a.value < 0
            &&& (head + ",\"outcome\":\"DRAW\",\"best\":"@).is_prefix_of(analysis_text(a)) <==> a.value == 0
        }),
{
    let head = "{\"exact\":"@ + (if a.exact {
        "true"@
    } else {
        "false"@
    }) + ",\"side\":"@ + (match a.side_to_move {
        Player::P0 => "0"@,
        Player::P1 => "1"@,
    }) + ",\"value\":"@ + text::signed_decimal(a.value as int);
    let win = ",\"outcome\":\"WIN\",\"best\":"@;
    let loss = ",\"outcome\":\"LOSS\",\"best\":"@;
    let draw = ",\"outcome\":\"DRAW\",\"best\":"@;
    let name = ",\"outcome\":\""@;
    let best = "\",\"best\":"@;
    lemma_sides();
    lemma_outcomes();
    let word = if a.value > 0 {
        win
    } else if a.value < 0 {
        loss
    } else {
        draw
    };
    let x = text::signed_decimal(best_number(a.best_move));
    let nodes = text::decimal(a.nodes as int);
    let depth = text::signed_decimal(depth_number(a.depth));
    let y = x + ",\"nodes\":"@ + nodes + ",\"depth\":"@ + depth;
    lemma_six(best, x, ",\"nodes\":"@, nodes, ",\"depth\":"@, depth);
    assert(work_text(a) == best + y);
    let (c, d, e, f, g) = (
        ",\"pv\":["@,
        number_list(a.pv@),
        "],\"evals\":["@,
        eval_list(a.move_evals@),
        "]}"@,
    );
    let o = report::outcome_text(report::outcome_of(a.value as int));
    assert(result_text(a) == head + name + o);
    let rest = y + (c + d + e + f + g);
    assert(word == name + o + best);
    lemma_regroup(head, name, o, best, y, c, d, e, f, g);
    assert(analysis_text(a) == head + (word + rest));
    if a.value > 0 {
        lemma_begins(head, word, rest, loss, 12);
        lemma_begins(head, word, rest, draw, 12);
    } else if a.value < 0 {
        lemma_begins(head, word, rest, win, 12);
        lemma_begins(head, word, rest, draw, 12);
    } else {
        lemma_begins(head, word, rest, win, 12);
        lemma_begins(head, word, rest, loss, 12);
    }
}

proof fn lemma_sides()
    ensures
        text::decimal(0) == "0"@,
        text::decimal(1) == "1"@,
{
    reveal_strlit("0");
    reveal_strlit("1");
    assert(text::decimal(0) =~= "0"@);
    assert(text::decimal(1) =~= "1"@);
}

proof fn lemma_outcomes()
    ensures
        ({
            let win = ",\"outcome\":\"WIN\",\"best\":"@;
            let loss = ",\"outcome\":\"LOSS\",\"best\":"@;
            let draw = ",\"outcome\":\"DRAW\",\"best\":"@;
            let name = ",\"outcome\":\""@;
            let best = "\",\"best\":"@;
            &&& win == name + "WIN"@ + best
            &&& loss == name + "LOSS"@ + best
            &&& draw == name + "DRAW"@ + best
            &&& win.len() > 12 && loss.len() > 12 && draw.len() > 12
            &&& win[12] == 'W' && loss[12] == 'L' && draw[12] == 'D'
        }),
{
    reveal_strlit("WIN");
    reveal_strlit("LOSS");
    reveal_strlit("DRAW");
    reveal_strlit(",\"outcome\":\"");
    reveal_strlit("\",\"best\":");
    reveal_strlit(",\"outcome\":\"WIN\",\"best\":");
    reveal_strlit(",\"outcome\":\"LOSS\",\"best\":");
    reveal_strlit(",\"outcome\":\"DRAW\",\"best\":");
}

proof fn lemma_six(
    b: Seq<char>,
    x: Seq<char>,
    y: Seq<char>,
    z: Seq<char>,
    u: Seq<char>,
    v: Seq<char>,
)
    ensures
        b + x + y + z + u + v == b + (x + y + z + u + v),
{
    text::lemma_join(b, x, y);
    text::lemma_join(b, x + y, z);
    text::lemma_join(b, x + y + z, u);
    text::lemma_join(b, x + y + z + u, v);
}

proof fn lemma_regroup(
    h: Seq<char>,
    n: Seq<char>,
    w: Seq<char>,
    b: Seq<char>,
    y: Seq<char>,
    c: Seq<char>,
    d: Seq<char>,
    e: Seq<char>,
    f: Seq<char>,
    g: Seq<char>,
)
    ensures
        (h + n + w) + (b + y) + c + d + e + f + g == h + ((n + w + b) + (y + (c + d + e + f + g))),
{
    let k = (h + n + w) + (b + y);
    lemma_six(k, c, d, e, f, g);
    let t = c + d + e + f + g;
    text::lemma_join(h, n, w);
    text::lemma_join(h, n + w, b + y);
    text::lemma_join(n + w, b, y);
    text::lemma_join(h, n + w + b + y, t);
    text::lemma_join(n + w + b, y, t);
}

/// A list of numbers is the numbers in decimal with commas between them, in their order; so
/// is a list of evaluated moves.
pub proof fn lemma_lists(items: Seq<usize>, evals: Seq<MoveEval>)
    ensures
        number_list(items) == text::rejoined(items.map_values(|m: usize| text::decimal(m as int)), ','),
        eval_list(evals) == text::rejoined(evals.map_values(|e: MoveEval| eval_text(e)), ','),
    decreases items.len() + evals.len(),
{
    reveal_strlit(",");
    let parts = items.map_values(|m: usize| text::decimal(m as int));
    let texts = evals.map_values(|e: MoveEval| eval_text(e));
    if items.len() > 1 {
        let front = items.drop_last();
        lemma_lists(front, evals);
        assert(parts.drop_last() =~= front.map_values(|m: usize| text::decimal(m as int)));
        let d = text::decimal(items.last() as int);
        text::lemma_join(number_list(front), ","@, d);
        assert(number_list(front) + ","@ =~= number_list(front).push(','));
    }
    if evals.len() > 1 {
        let front = evals.drop_last();
        lemma_lists(items, front);
        assert(texts.drop_last() =~= front.map_values(|e: MoveEval| eval_text(e)));
        text::lemma_join(eval_list(front), ","@, eval_text(evals.last()));
        assert(eval_list(front) + ","@ =~= eval_list(front).push(','));
    }
}

/// An evaluated move: each field under its name, and the three marks as true or false.
pub proof fn lemma_eval_fields(e: MoveEval)
    ensures
        ({
            let mark = |b: bool|
                if b {
                    "true"@
                } else {
                    "false"@
                };
            eval_text(e) == "{\"pit\":"@ + text::decimal(e.pit as int) + ",\"value\":"@
                + text::signed_decimal(e.value as int) + (",\"bound\":"@ + mark(e.bound)) + (
            ",\"extra\":"@ + mark(e.extra_turn)) + (",\"capture\":"@ + mark(e.captured)) + "}"@
        }),
{
}

/// All that a reply says of an analysis: the best move, or -1 if there is none, the work, the
/// depth, or -1 if the analysis is exact, the line and the evaluated moves.
pub proof fn lemma_analysis_fields(a: Analysis)
    requires
        a.best_move matches Some(m) ==> m <= i32::MAX,
        a.depth matches Some(d) ==> d <= i32::MAX,
    ensures
        ({
            let mark = if a.exact {
                "true"@
            } else {
                "false"@
            };
            let side = match a.side_to_move {
                Player::P0 => "0"@,
                Player::P1 => "1"@,
            };
            let word = if a.value > 0 {
                "WIN"@
            } else if a.value < 0 {
                "LOSS"@
            } else {
                "DRAW"@
            };
            let best = match a.best_move {
                Some(m) => text::decimal(m as int),
                None => "-1"@,
            };
            let depth = match a.depth {
                Some(d) => text::decimal(d as int),
                None => "-1"@,
            };
            let result = "{\"exact\":"@ + mark + ",\"side\":"@ + side + ",\"value\":"@
                + text::signed_decimal(a.value as int) + ",\"outcome\":\""@ + word;
            let work = "\",\"best\":"@ + best + ",\"nodes\":"@ + text::decimal(a.nodes as int)
                + ",\"depth\":"@ + depth;
            analysis_text(a) == result + work + ",\"pv\":["@ + text::rejoined(
                a.pv@.map_values(|m: usize| text::decimal(m as int)),
                ',',
            ) + "],\"evals\":["@ + text::rejoined(
                a.move_evals@.map_values(|e: MoveEval| eval_text(e)),
                ',',
            ) + "]}"@
        }),
{
    lemma_sides();
    lemma_lists(a.pv@, a.move_evals@);
    reveal_strlit("-1");
    reveal_strlit("-");
    reveal_strlit("1");
    assert(text::signed_decimal(-1) =~= "-1"@);
}

/// A reply that reports an error: the message, and in it each double quote made single, so
/// that the message ends where the reply's own quotes end it.
pub proof fn lemma_error(msg: Seq<char>)
    ensures
        ({
            let said = error_text(msg).subrange(10, 10int + msg.len());
            &&& error_text(msg) == "{\"error\":\""@ + said + "\"}"@
            &&& said.len() == msg.len()
            &&& !said.contains('"')
            &&& forall|j: int|
                0 <= j < msg.len() && msg[j] != '"' ==> #[trigger] said[j] == msg[j]
            &&& forall|j: int| 0 <= j < msg.len() && msg[j] == '"' ==> #[trigger] said[j] == '\''
        }),
{
    reveal_strlit("{\"error\":\"");
    let said = error_text(msg).subrange(10, 10int + msg.len());
    assert(said =~= unquoted(msg));
}

/// The reply to a move: an error once the game is over or if the pit is not one of the
/// mover's that hold a seed; else the position after the move, who is to move in it, and
/// whether the move earned an extra turn, captured, or ended the game.
pub proof fn lemma_move_reply(rules: Rules, at: Seat, mv: int)
    requires
        model::valid(at.pos),
    ensures
        model::over(at.pos) ==> move_reply(rules, at, mv) == "{\"error\":\"game is already over\"}"@,
        !model::over(at.pos) && !(0 <= mv < at.pos.len() / 2 - 1 && at.pos[mv] > 0) ==> move_reply(
            rules,
            at,
            mv,
        ) == "{\"error\":\"illegal move\"}"@,
        !model::over(at.pos) && 0 <= mv < at.pos.len() / 2 - 1 && at.pos[mv] > 0 ==> {
            let mark = |b: bool|
                if b {
                    "true"@
                } else {
                    "false"@
                };
            let t = model::played(rules, at.pos, mv);
            let extra = (mv + at.pos[mv]) % (at.pos.len() - 1) == at.pos.len() / 2 - 1;
            let cells = match at.mover {
                Player::P0 => t,
                Player::P1 => model::flip(t),
            };
            let turn = if extra == (at.mover is P0) {
                "0"@
            } else {
                "1"@
            };
            move_reply(rules, at, mv) == "{\"notation\":\""@ + notation::notation_of(cells)
                + "\",\"turn\":"@ + turn + (",\"extra_turn\":"@ + mark(extra)) + (
            ",\"captured\":"@ + mark(model::captures(rules, at.pos, mv))) + (",\"terminal\":"@
                + mark(model::over(t))) + "}"@
        },
{
    reveal_strlit("{\"error\":\"");
    reveal_strlit("\"}");
    reveal_strlit("game is already over");
    reveal_strlit("illegal move");
    reveal_strlit("{\"error\":\"game is already over\"}");
    reveal_strlit("{\"error\":\"illegal move\"}");
    assert(error_text("game is already over"@) =~= "{\"error\":\"game is already over\"}"@);
    assert(error_text("illegal move"@) =~= "{\"error\":\"illegal move\"}"@);
    lemma_sides();
    if model::legal(at.pos, mv) {
        let t = model::played(rules, at.pos, mv);
        model::lemma_extra_turn(at.pos, mv);
        model::lemma_played(rules, at.pos, mv);
        model::lemma_flip(t);
        model::lemma_flip(model::flip(t));
    }
}

/// The reply to a request for the opening: side 1 moves first if asked for, and side 0
/// otherwise; no more than 255 seeds may be asked for in a pit, or be on the board.
pub proof fn lemma_start_reply(pits: int, seeds: int, turn: u32)
    requires
        pits >= 0,
        seeds >= 0,
    ensures
        seeds > 255 ==> start_reply(pits, seeds, turn) == "{\"error\":\"seeds out of range\"}"@,
        1 <= pits <= 15 && 2 * pits * seeds <= 255 ==> start_reply(pits, seeds, turn)
            == "{\"notation\":\""@ + notation::notation_of(board::opening_cells(pits, seeds))
            + "\",\"turn\":"@ + (if turn == 1 {
            "1"@
        } else {
            "0"@
        }) + "}"@,
{
    reveal_strlit("{\"error\":\"");
    reveal_strlit("\"}");
    reveal_strlit("seeds out of range");
    reveal_strlit("{\"error\":\"seeds out of range\"}");
    assert(error_text("seeds out of range"@) =~= "{\"error\":\"seeds out of range\"}"@);
    lemma_sides();
    if 1 <= pits <= 15 && 2 * pits * seeds <= 255 {
        let s = board::opening_cells(pits, seeds);
        board::lemma_opening(pits, seeds);
        board::lemma_board_error(pits, s);
        assert(seeds <= 255) by (nonlinear_arith)
            requires
                pits >= 1,
                seeds >= 0,
                2 * pits * seeds <= 255,
        ;
        assert(cells_of(seat_of(s, player_of(turn))) =~= s);
    }
}

} // verus!
