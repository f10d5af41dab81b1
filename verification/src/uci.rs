//! Reading the arguments of the UCI commands "position" and "go".
use vstd::prelude::*;
use crate::{Position, Move, Piece, STARTPOS_FEN, uci_move};
use crate::text::chars_of;
use crate::fen::{text_of, append, fen_ok, fen_describes, count_field};

verus! {

/// Whether two strings hold the same characters.
pub fn same_text(a: &str, b: &str) -> (r: bool)
    ensures
        r == (a@ == b@),
{
    let x = chars_of(a);
    let y = chars_of(b);
    if x.len() != y.len() {
        return false;
    }
    let mut i: usize = 0;
    while i < x.len()
        invariant
            x@ == a@,
            y@ == b@,
            x@.len() == y@.len(),
            i <= x@.len(),
            forall|k: int| 0 <= k < i ==> x@[k] == y@[k],
        decreases x@.len() - i,
    {
        if x[i] != y[i] {
            return false;
        }
        i += 1;
    }
    assert(x@ =~= y@);
    true
}

/// Reads a count: an optional '+' then decimal digits, no more than `usize::MAX`.
pub fn parse_count_text(s: &str) -> (r: Option<usize>)
    ensures
        match count_field(s@) {
            Some(v) => r == Some(v as usize),
            None => r is None,
        },
{
    let c = chars_of(s);
    assert(c@.subrange(0, c@.len() as int) =~= s@);
    crate::fen::parse_count(&c, 0, c.len())
}

/// The message "`before``text``after`".
fn quoted(before: &str, text: &str, after: &str) -> (r: String)
    ensures
        r@ == before@ + text@ + after@,
{
    let mut m = text_of(before);
    append(&mut m, text);
    append(&mut m, after);
    m
}

/// The words `2..k` of a command, separated by single spaces.
pub open spec fn joined(args: Seq<String>, k: int) -> Seq<char>
    decreases k,
{
    if k <= 3 {
        args[2]@
    } else {
        joined(args, k - 1) + seq![' '] + args[k - 1]@
    }
}

/// `p0` is the position a "position" command starts from: the start position for
/// "startpos", the position its six FEN words describe for "fen".
pub open spec fn position_base(args: Seq<String>, p0: Position) -> bool {
    ||| args[1]@ == "startpos"@ && fen_ok(STARTPOS_FEN@) && fen_describes(STARTPOS_FEN@, p0)
    ||| args[1]@ == "fen"@ && args.len() >= 8 && fen_ok(joined(args, 8)) && fen_describes(joined(args, 8), p0)
}

/// The words of a "position" command are in order: "startpos", or "fen" and six more words;
/// then nothing, or "moves" and words that each read as a move.
pub open spec fn position_words_ok(args: Seq<String>) -> bool {
    &&& args.len() >= 2
    &&& (args[1]@ == "startpos"@ || (args[1]@ == "fen"@ && args.len() >= 8))
    &&& (moves_at(args) < args.len() ==> args[moves_at(args)]@ == "moves"@)
    &&& forall|j: int| moves_at(args) < j < args.len() ==> #[trigger] uci_move(args[j]@) is Some
}

/// A FEN text describes one position only.
proof fn lemma_fen_unique(s: Seq<char>, p: Position, q: Position)
    requires
        fen_describes(s, p),
        fen_describes(s, q),
    ensures
        p == q,
{
    let (o, c, r, e, h, m) = crate::fen::fen_fields(s)->0;
    crate::move_gen::lemma_same_state(p, q, e);
}

/// The index of the word after the start of a "position" command.
pub open spec fn moves_at(args: Seq<String>) -> int {
    if args[1]@ == "startpos"@ { 2 } else { 8 }
}

/// The moves after the word "moves", read in UCI notation.
pub open spec fn listed_moves(args: Seq<String>) -> Seq<Move> {
    let n = moves_at(args) + 1;
    Seq::new(if args.len() > n { (args.len() - n) as nat } else { 0 }, |j: int| uci_move(args[n + j]@)->0)
}

/// `ps` are the positions passed through from `p0` playing `ms` in turn, each move a listed
/// move of the position it is played in that does not take a king.
pub open spec fn played(p0: Position, ms: Seq<Move>, ps: Seq<Position>) -> bool {
    &&& ps.len() == ms.len() + 1
    &&& ps[0] == p0
    &&& forall|i: int| 0 <= i < ms.len() ==> {
        &&& ps[i].listed_move(#[trigger] ms[i])
        &&& ps[i].occupant(ms[i].to_sq()) != Some((Piece::King, ps[i].side_to_move().other()))
        &&& ps[i].plays(ms[i], ps[i + 1])
    }
}

/// Playing one more listed move from the last position passed through.
proof fn lemma_played_push(p0: Position, ms: Seq<Move>, ps: Seq<Position>, mv: Move, p: Position)
    requires
        played(p0, ms, ps),
        ps.last().listed_move(mv),
        ps.last().occupant(mv.to_sq()) != Some((Piece::King, ps.last().side_to_move().other())),
        ps.last().plays(mv, p),
    ensures
        played(p0, ms.push(mv), ps.push(p)),
{
    let ms2 = ms.push(mv);
    let ps2 = ps.push(p);
    assert forall|i: int| 0 <= i < ms2.len() implies {
        &&& ps2[i].listed_move(#[trigger] ms2[i])
        &&& ps2[i].occupant(ms2[i].to_sq()) != Some((Piece::King, ps2[i].side_to_move().other()))
        &&& ps2[i].plays(ms2[i], ps2[i + 1])
    } by {
        if i < ms.len() {
            assert(ms2[i] == ms[i]);
            assert(ps2[i] == ps[i] && ps2[i + 1] == ps[i + 1]);
        } else {
            assert(ps2[i] == ps.last());
        }
    }
}

/// The position a "position" command sets up: "startpos" or "fen" with the six FEN fields,
/// then optionally "moves" and the moves in UCI notation, each of which must be legal.
pub fn parse_position_cmd(args: &Vec<String>) -> (r: Result<Position, String>)
    requires
        args@.len() >= 1,
        args@[0]@ == "position"@,
    ensures
        r matches Ok(p) ==> p.wf() && exists|p0: Position, ps: Seq<Position>| #[trigger] position_base(args@, p0)
            && #[trigger] played(p0, listed_moves(args@), ps) && ps.last() == p,
        r is Ok <==> position_words_ok(args@) && exists|p0: Position, ps: Seq<Position>| #[trigger] position_base(args@, p0)
            && #[trigger] played(p0, listed_moves(args@), ps),
        args@.len() < 2 ==> r is Err,
        args@.len() >= 2 && args@[1]@ != "startpos"@ && args@[1]@ != "fen"@ ==> r is Err,
        args@.len() >= 2 && args@[1]@ == "fen"@ && (args@.len() < 8 || !fen_ok(joined(args@, 8))) ==> r is Err,
        args@.len() >= 2 && moves_at(args@) < args@.len() && args@[moves_at(args@)]@ != "moves"@ ==> r is Err,
        args@.len() >= 2 && (exists|j: int| moves_at(args@) < j < args@.len() && #[trigger] uci_move(args@[j]@) is None)
            ==> r is Err,
{
    if args.len() < 2 {
        return Err(text_of("specify 'startpos' or 'fen'"));
    }
    let ghost a = args@;
    proof {
        reveal_strlit("startpos");
        reveal_strlit("fen");
        assert("startpos"@ != "fen"@) by {
            assert("startpos"@.len() != "fen"@.len());
        }
    }
    let ghost good = position_words_ok(a) && exists|p0: Position, ps: Seq<Position>| #[trigger] position_base(a, p0)
        && #[trigger] played(p0, listed_moves(a), ps);
    let ghost (q0, qs) = choose|p0: Position, ps: Seq<Position>| #[trigger] position_base(a, p0)
        && #[trigger] played(p0, listed_moves(a), ps);
    let base = args[1].as_str();
    let mut pos;
    let next: usize;
    if same_text(base, "startpos") {
        pos = match crate::fen::parse_playable(STARTPOS_FEN) {
            Ok(p) => p,
            Err(e) => {
                return Err(e);
            },
        };
        proof {
            if good {
                lemma_fen_unique(STARTPOS_FEN@, pos, q0);
            }
        }
        next = 2;
    } else if same_text(base, "fen") {
        if args.len() < 8 {
            return Err(text_of("specify a fen"));
        }
        let mut fen = String::new();
        let mut k: usize = 2;
        while k < 8
            invariant
                2 <= k <= 8,
                args@.len() >= 8,
                a == args@,
                k == 2 ==> fen@ == Seq::<char>::empty(),
                k > 2 ==> fen@ == joined(a, k as int),
            decreases 8 - k,
        {
            if k > 2 {
                fen.push(' ');
            }
            append(&mut fen, args[k].as_str());
            proof {
                if k == 2 {
                    assert(fen@ =~= a[2]@);
                }
            }
            k += 1;
        }
        pos = match crate::fen::parse_playable(fen.as_str()) {
            Ok(p) => p,
            Err(e) => {
                return Err(e);
            },
        };
        proof {
            if good {
                lemma_fen_unique(joined(a, 8), pos, q0);
            }
        }
        next = 8;
    } else {
        return Err(quoted("expected 'startpos' or 'fen', got '", base, "'"));
    }
    let ghost p0 = pos;
    let ghost mut ps = seq![pos];
    assert(next == moves_at(a));
    assert(position_base(a, p0));
    if next >= args.len() {
        proof {
            assert(listed_moves(a) =~= Seq::<Move>::empty());
            assert(played(p0, listed_moves(a), ps));
        }
        return Ok(pos);
    }
    if !same_text(args[next].as_str(), "moves") {
        return Err(quoted("expected 'moves', got ", args[next].as_str(), ""));
    }
    let mut i = next + 1;
    while i < args.len()
        invariant
            pos.wf(),
            a == args@,
            next == moves_at(a),
            next + 1 <= i <= args@.len(),
            forall|j: int| next < j < i ==> #[trigger] uci_move(a[j]@) is Some,
            played(p0, listed_moves(a).take(i - next - 1), ps),
            ps.last() == pos,
            good == (position_words_ok(a) && exists|p0: Position, ps: Seq<Position>| #[trigger] position_base(a, p0)
                && #[trigger] played(p0, listed_moves(a), ps)),
            good ==> position_base(a, q0) && played(q0, listed_moves(a), qs),
            good ==> ps == qs.take(i - next),
            position_base(a, p0),
            args@[next as int]@ == "moves"@,
        decreases args@.len() - i,
    {
        let text = args[i].as_str();
        let mv = match Move::from_uci(text) {
            Some(m) => m,
            None => {
                return Err(quoted("malformed move ", text, ""));
            },
        };
        proof {
            if good {
                let k = i - next - 1;
                assert(listed_moves(a)[k] == mv);
                assert(qs[k] == ps.last());
                assert(qs[k].listed_move(listed_moves(a)[k]));
            }
        }
        if !pos.is_legal(mv) || pos.takes_king(mv) {
            return Err(quoted("move ", text, " is illegal"));
        }
        let ghost before = pos;
        pos = pos.make_move(mv);
        proof {
            if good {
                let k = i - next - 1;
                assert(listed_moves(a)[k] == mv);
                assert(qs[k] == before);
                assert(qs[k].listed_move(listed_moves(a)[k]));
                crate::move_gen::lemma_plays_unique(before, mv, pos, qs[k + 1]);
                assert(ps.push(pos) =~= qs.take(i + 1 - next));
            }
            assert(listed_moves(a)[i - next - 1] == mv);
            let ms = listed_moves(a).take(i - next - 1);
            assert(listed_moves(a).take(i + 1 - next - 1) =~= ms.push(mv));
            lemma_played_push(p0, ms, ps, mv, pos);
            ps = ps.push(pos);
        }
        i += 1;
    }
    proof {
        assert(listed_moves(a).take(i - next - 1) =~= listed_moves(a));
    }
    Ok(pos)
}

/// The arguments of a "go" command: times and increments in milliseconds, depth, nodes.
#[derive(Copy, Clone)]
pub struct GoParams {
    pub wtime: Option<usize>,
    pub btime: Option<usize>,
    pub winc: Option<usize>,
    pub binc: Option<usize>,
    pub depth: Option<usize>,
    pub nodes: Option<usize>,
    pub movetime: Option<usize>,
}

/// No time, depth or node count given.
pub open spec fn no_params() -> GoParams {
    GoParams { wtime: None, btime: None, winc: None, binc: None, depth: None, nodes: None, movetime: None }
}

/// The field of `GoParams` that a word of a "go" command sets, in the order of the fields;
/// none for other words.
pub open spec fn go_field(w: Seq<char>) -> Option<int> {
    if w == "wtime"@ {
        Some(0)
    } else if w == "btime"@ {
        Some(1)
    } else if w == "winc"@ {
        Some(2)
    } else if w == "binc"@ {
        Some(3)
    } else if w == "depth"@ {
        Some(4)
    } else if w == "nodes"@ {
        Some(5)
    } else if w == "movetime"@ {
        Some(6)
    } else {
        None
    }
}

/// `p` with field `k` set to `v`.
pub open spec fn with_field(p: GoParams, k: int, v: usize) -> GoParams {
    if k == 0 {
        GoParams { wtime: Some(v), ..p }
    } else if k == 1 {
        GoParams { btime: Some(v), ..p }
    } else if k == 2 {
        GoParams { winc: Some(v), ..p }
    } else if k == 3 {
        GoParams { binc: Some(v), ..p }
    } else if k == 4 {
        GoParams { depth: Some(v), ..p }
    } else if k == 5 {
        GoParams { nodes: Some(v), ..p }
    } else {
        GoParams { movetime: Some(v), ..p }
    }
}

/// What the words of a "go" command from the `i`-th on make of `p`: each known word sets its
/// field to the count after it; other words are skipped. None when a known word has no
/// count after it or the count is not a valid one.
pub open spec fn go_params(args: Seq<String>, i: int, p: GoParams) -> Option<GoParams>
    decreases args.len() - i,
{
    if i < 0 || i >= args.len() {
        Some(p)
    } else {
        match go_field(args[i]@) {
            Some(k) => if i + 1 >= args.len() {
                None
            } else {
                match count_field(args[i + 1]@) {
                    Some(v) => go_params(args, i + 2, with_field(p, k, v as usize)),
                    None => None,
                }
            },
            None => go_params(args, i + 1, p),
        }
    }
}

/// Reads the arguments of a "go" command: each of "wtime", "btime", "winc", "binc", "depth",
/// "nodes" and "movetime" takes the count after it; other words are skipped.
pub fn parse_go(args: &Vec<String>) -> (r: Result<GoParams, String>)
    requires
        args@.len() >= 1,
        args@[0]@ == "go"@,
    ensures
        match go_params(args@, 1, no_params()) {
            Some(q) => r == Ok::<GoParams, String>(q),
            None => r is Err,
        },
{
    let mut params = GoParams {
        wtime: None,
        btime: None,
        winc: None,
        binc: None,
        depth: None,
        nodes: None,
        movetime: None,
    };
    let mut i: usize = 1;
    while i < args.len()
        invariant
            1 <= i <= args@.len(),
            go_params(args@, i as int, params) == go_params(args@, 1, no_params()),
        decreases args@.len() - i,
    {
        let word = args[i].as_str();
        let known = same_text(word, "wtime") || same_text(word, "btime") || same_text(word, "winc")
            || same_text(word, "binc") || same_text(word, "depth") || same_text(word, "nodes")
            || same_text(word, "movetime");
        if known {
            if i + 1 >= args.len() {
                return Err(text_of("unexpected end of command"));
            }
            let x = args[i + 1].as_str();
            let v = match parse_count_text(x) {
                Some(v) => v,
                None => {
                    return Err(quoted("invalid value '", x, "'"));
                },
            };
            if same_text(word, "wtime") {
                params.wtime = Some(v);
            } else if same_text(word, "btime") {
                params.btime = Some(v);
            } else if same_text(word, "winc") {
                params.winc = Some(v);
            } else if same_text(word, "binc") {
                params.binc = Some(v);
            } else if same_text(word, "depth") {
                params.depth = Some(v);
            } else if same_text(word, "nodes") {
                params.nodes = Some(v);
            } else {
                params.movetime = Some(v);
            }
            i += 2;
        } else {
            i += 1;
        }
    }
    Ok(params)
}

} // verus!
