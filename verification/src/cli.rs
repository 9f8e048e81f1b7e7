//! The decisions of the command line: which side is to move, whether an endgame
//! tablebase is worth having, and where it is kept.

use vstd::prelude::*;

use crate::board::{Board, Player, Rules, MAX_PITS};
use crate::counting;
use crate::model;
use crate::tablebase::Tablebase;
use crate::text;

verus! {

// ---------------------------------------------------------------------------
// The side to move
// ---------------------------------------------------------------------------

/// A character with `A` to `Z` made small.
pub open spec fn lower(c: char) -> char {
    if 65 <= c as int <= 90 {
        (c as int + 32) as char
    } else {
        c
    }
}

/// A text with `A` to `Z` made small.
pub open spec fn lowered(s: Seq<char>) -> Seq<char> {
    Seq::new(s.len(), |i: int| lower(s[i]))
}

/// What `--turn` says, or why it says nothing.
pub open spec fn turn_of(s: Seq<char>) -> Result<Player, Seq<char>> {
    let t = lowered(s);
    if t == "0"@ || t == "p0"@ || t == "south"@ || t == "s"@ {
        Ok(Player::P0)
    } else if t == "1"@ || t == "p1"@ || t == "north"@ || t == "n"@ {
        Ok(Player::P1)
    } else {
        Err("invalid --turn '"@ + t + "' (use 0/p0/south or 1/p1/north)"@)
    }
}

/// A text with `A` to `Z` made small.
fn to_lower(s: &str) -> (t: String)
    ensures
        t@ == lowered(s@),
{
    let letters = "abcdefghijklmnopqrstuvwxyz";
    let chars = text::characters(s);
    let mut out = String::new();
    let mut i: usize = 0;
    proof {
        reveal_strlit("abcdefghijklmnopqrstuvwxyz");
        assert(forall|k: int| 0 <= k < 26 ==> #[trigger] letters@[k] as int == 97 + k);
    }
    while i < chars.len()
        invariant
            chars@ == s@,
            i <= chars@.len(),
            out@ == lowered(s@.take(i as int)),
            letters@.len() == 26,
            forall|k: int| 0 <= k < 26 ==> #[trigger] letters@[k] as int == 97 + k,
        decreases chars@.len() - i,
    {
        let x: u32 = text::code(chars[i]);
        if 65 <= x && x <= 90 {
            let k: usize = (x - 65) as usize;
            let piece = letters.substring_char(k, k + 1);
            out.append(piece);
            assert(piece@[0] == letters@[k as int]);
        } else {
            out.append(s.substring_char(i, i + 1));
        }
        proof {
            assert(out@ =~= lowered(s@.take(i + 1)));
        }
        i = i + 1;
    }
    assert(s@.take(i as int) =~= s@);
    out
}

/// The side to move that `--turn` names.
pub fn parse_turn(s: &str) -> (res: Result<Player, String>)
    ensures
        match res {
            Ok(p) => turn_of(s@) == Ok::<Player, Seq<char>>(p),
            Err(e) => turn_of(s@) == Err::<Player, Seq<char>>(e@),
        },
        ({
            let t = Seq::new(
                s@.len(),
                |i: int|
                    if 'A' <= s@[i] && s@[i] <= 'Z' {
                        (s@[i] as int + 32) as char
                    } else {
                        s@[i]
                    },
            );
            let south = t == "0"@ || t == "p0"@ || t == "south"@ || t == "s"@;
            let north = t == "1"@ || t == "p1"@ || t == "north"@ || t == "n"@;
            &&& res == Ok::<Player, String>(Player::P0) <==> south
            &&& res == Ok::<Player, String>(Player::P1) <==> north
            &&& res matches Err(e) ==> e@ == "invalid --turn '"@ + t
                + "' (use 0/p0/south or 1/p1/north)"@
        }),
{
    let lowercase = to_lower(s);
    let t = lowercase.as_str();
    proof {
        lemma_turn_words(t@);
        assert(t@ =~= Seq::new(
            s@.len(),
            |i: int|
                if 'A' <= s@[i] && s@[i] <= 'Z' {
                    (s@[i] as int + 32) as char
                } else {
                    s@[i]
                },
        ));
    }
    if text::same(t, "0") || text::same(t, "p0") || text::same(t, "south") || text::same(t, "s") {
        return Ok(Player::P0);
    }
    if text::same(t, "1") || text::same(t, "p1") || text::same(t, "north") || text::same(t, "n") {
        return Ok(Player::P1);
    }
    let mut e = String::from_str("invalid --turn '");
    e.append(t);
    e.append("' (use 0/p0/south or 1/p1/north)");
    Err(e)
}

// ---------------------------------------------------------------------------
// The automatic tablebase
// ---------------------------------------------------------------------------

/// An automatic tablebase is used for boards up to this many pits per side (bigger
/// boards have an explosive endgame space).
pub const AUTO_TB_MAX_PITS: usize = 6;

/// ...and only when at least this many seeds are in play (small positions are solved
/// at once without one).
pub const AUTO_TB_MIN_SEEDS: u32 = 34;

/// Seed cap of an automatic tablebase, unless another is asked for.
pub const AUTO_TB_CAP: u32 = 14;

/// No table larger than this many entries is built automatically (~700 MB).
pub const AUTO_TB_MAX_ENTRIES: u64 = 350_000_000;

/// The largest table that is built on request, in bytes (4 GiB).
pub const MAX_TABLE_BYTES: u64 = 4_294_967_296;

/// What to do about an automatic tablebase.
#[derive(Clone, Copy, Debug, PartialEq, Eq, Structural)]
pub enum TablePlan {
    /// Do without.
    Without,
    /// Do without: the table for this cap would be too large.
    TooLarge(u32),
    /// Use the table with this cap, and build it if it is not there.
    With(u32),
}

/// The seed cap of an automatic tablebase.
pub open spec fn auto_cap(seeds_cap: Option<u32>) -> u32 {
    match seeds_cap {
        Some(c) => c,
        None => AUTO_TB_CAP,
    }
}

/// What to do about an automatic tablebase for a position.
pub open spec fn plan_for(s: Seq<int>, disabled: bool, seeds_cap: Option<u32>) -> TablePlan {
    if disabled || model::pits(s) > AUTO_TB_MAX_PITS || model::in_play(s) < AUTO_TB_MIN_SEEDS {
        TablePlan::Without
    } else if counting::layouts(auto_cap(seeds_cap) as int, 2 * model::pits(s))
        > AUTO_TB_MAX_ENTRIES {
        TablePlan::TooLarge(auto_cap(seeds_cap))
    } else {
        TablePlan::With(auto_cap(seeds_cap))
    }
}

/// What to do about an automatic tablebase for `board`. `disabled` turns it off, and
/// `seeds_cap` replaces its seed cap.
pub fn plan_tablebase(board: &Board, disabled: bool, seeds_cap: Option<u32>) -> (plan: TablePlan)
    ensures
        plan == plan_for(board.pos(), disabled, seeds_cap),
        plan matches TablePlan::With(cap) ==> 1 <= board.pits() <= MAX_PITS && counting::layouts(
            cap as int,
            2 * board.pits(),
        ) <= usize::MAX,
        ({
            let cap: u32 = match seeds_cap {
                Some(c) => c,
                None => 14,
            };
            let wanted = !disabled && board.pits() <= 6 && model::in_play(board.pos()) >= 34;
            let fits = counting::layouts(cap as int, 2 * board.pits()) <= 350_000_000;
            &&& plan == TablePlan::Without <==> !wanted
            &&& plan == TablePlan::With(cap) <==> wanted && fits
            &&& plan == TablePlan::TooLarge(cap) <==> wanted && !fits
        }),
{
    proof {
        use_type_invariant(board);
        board.lemma_seen();
    }
    let n = board.pits_per_side();
    if disabled || n > AUTO_TB_MAX_PITS || board.seeds_in_play() < AUTO_TB_MIN_SEEDS {
        return TablePlan::Without;
    }
    let cap: u32 = match seeds_cap {
        Some(c) => c,
        None => AUTO_TB_CAP,
    };
    if Tablebase::entry_count(n, cap) > AUTO_TB_MAX_ENTRIES {
        return TablePlan::TooLarge(cap);
    }
    TablePlan::With(cap)
}

/// The number of entries of a table that is to be built on request: `Ok` if it is no
/// larger than [`MAX_TABLE_BYTES`], at two bytes an entry.
pub fn table_size(pits_per_side: usize, cap: u32) -> (res: Result<u64, u64>)
    requires
        2 * pits_per_side + cap <= u64::MAX,
    ensures
        match res {
            Ok(entries) => 2 * counting::layouts(cap as int, 2 * pits_per_side) <= MAX_TABLE_BYTES
                && entries == counting::layouts(cap as int, 2 * pits_per_side),
            Err(entries) => 2 * counting::layouts(cap as int, 2 * pits_per_side) > MAX_TABLE_BYTES
                && entries == counting::saturated(
                counting::layouts(cap as int, 2 * pits_per_side),
            ),
        },
        res is Ok <==> 2 * counting::layouts(cap as int, 2 * pits_per_side) <= 4_294_967_296,
{
    let entries = Tablebase::entry_count(pits_per_side, cap);
    if entries > MAX_TABLE_BYTES / 2 {
        Err(entries)
    } else {
        Ok(entries)
    }
}

/// The complaint about a tablebase for boards of another size.
pub open spec fn wrong_size(table: int, n: int) -> Seq<char> {
    "tablebase is for "@ + text::decimal(table) + "-pit boards, but this board has "@
        + text::decimal(n) + " pits per side"@
}

/// Whether a tablebase that was asked for is for boards with `n` pits per side.
pub fn check_table(tb: &Tablebase, n: usize) -> (res: Result<(), String>)
    ensures
        match res {
            Ok(_) => tb.pits() == n,
            Err(e) => tb.pits() != n && e@ == wrong_size(tb.pits(), n as int),
        },
        res is Ok <==> tb.pits() == n,
        res matches Err(e) ==> e@ == "tablebase is for "@ + text::decimal(tb.pits())
            + "-pit boards, but this board has "@ + text::decimal(n as int) + " pits per side"@,
{
    if tb.pits_per_side() == n {
        return Ok(());
    }
    let mut e = String::from_str("tablebase is for ");
    text::push_decimal(&mut e, tb.pits_per_side() as u64);
    e.append("-pit boards, but this board has ");
    text::push_decimal(&mut e, n as u64);
    e.append(" pits per side");
    Err(e)
}

/// Whether a cached tablebase is the one that is wanted.
pub fn is_wanted(tb: &Tablebase, n: usize, cap: u32) -> (w: bool)
    ensures
        w == (tb.pits() == n && tb.limit() == cap),
{
    tb.pits_per_side() == n && tb.cap() == cap
}

/// The file name of a cached tablebase.
pub open spec fn cache_name_of(n: int, cap: int, rules: Rules) -> Seq<char> {
    "kalah_p"@ + text::decimal(n) + "_cap"@ + text::decimal(cap) + (
    if rules.capture_requires_nonempty_opposite {
        "_capnonempty.tb"@
    } else {
        "_capany.tb"@
    })
}

/// The file name of a cached tablebase, keyed by board size, cap, and capture rule.
pub fn cache_name(pits_per_side: usize, cap: u32, rules: &Rules) -> (s: String)
    ensures
        s@ == cache_name_of(pits_per_side as int, cap as int, *rules),
        rules.capture_requires_nonempty_opposite ==> s@ == "kalah_p"@ + text::decimal(
            pits_per_side as int,
        ) + "_cap"@ + text::decimal(cap as int) + "_capnonempty.tb"@,
        !rules.capture_requires_nonempty_opposite ==> s@ == "kalah_p"@ + text::decimal(
            pits_per_side as int,
        ) + "_cap"@ + text::decimal(cap as int) + "_capany.tb"@,
{
    let mut out = String::from_str("kalah_p");
    text::push_decimal(&mut out, pits_per_side as u64);
    out.append("_cap");
    text::push_decimal(&mut out, cap as u64);
    if rules.capture_requires_nonempty_opposite {
        out.append("_capnonempty.tb");
    } else {
        out.append("_capany.tb");
    }
    out
}

/// No word names both sides.
proof fn lemma_turn_words(t: Seq<char>)
    ensures
        !((t == "0"@ || t == "p0"@ || t == "south"@ || t == "s"@) && (t == "1"@ || t == "p1"@ || t
            == "north"@ || t == "n"@)),
{
    reveal_strlit("0");
    reveal_strlit("p0");
    reveal_strlit("south");
    reveal_strlit("s");
    reveal_strlit("1");
    reveal_strlit("p1");
    reveal_strlit("north");
    reveal_strlit("n");
    assert("0"@[0] == '0' && "p0"@[0] == 'p' && "south"@[0] == 's' && "s"@[0] == 's');
    assert("1"@[0] == '1' && "p1"@[0] == 'p' && "north"@[0] == 'n' && "n"@[0] == 'n');
    assert("p0"@[1] == '0' && "p1"@[1] == '1');
}

/// A name in letters of either case names the same side.
pub proof fn lemma_turn_case(s: Seq<char>, t: Seq<char>)
    requires
        s.len() == t.len(),
        forall|i: int|
            0 <= i < s.len() ==> #[trigger] s[i] == t[i] || (65 <= s[i] as int <= 90 && t[i] as int
                == s[i] as int + 32),
    ensures
        turn_of(s) == turn_of(t),
{
    assert(lowered(s) =~= lowered(t)) by {
        assert forall|i: int| 0 <= i < s.len() implies lowered(s)[i] == lowered(t)[i] by {
            assert(s[i] == t[i] || (65 <= s[i] as int <= 90 && t[i] as int == s[i] as int + 32));
        }
    }
}

} // verus!
