use vstd::prelude::*;
use crate::engine::{line_through, Engine};
use crate::fen::{chars_of, field, field_end, field_start, skip_spaces, skip_spaces_from, word_end, word_end_from};
use crate::moves::Move;
use crate::rules::legal;
use crate::state::{describes_at, fen_ok_at, is_start, GameState};
use crate::uci::{names_move, parse_move_chars};

verus! {

/// Field `k` of `t` names no legal move of `s`, or there is no such field.
pub open spec fn stops_at(t: Seq<char>, k: nat, s: GameState) -> bool {
    field(t, k).len() == 0 || !exists|m: Move| #[trigger] legal(s, m) && names_move(field(t, k), m)
}

/// From `s`, playing in turn the legal moves that the fields of `t` from
/// field `k` on name, up to the first field that names none, ends in `f`.
pub open spec fn plays_tokens(t: Seq<char>, k: nat, s: GameState, f: GameState) -> bool {
    exists|ms: Seq<Move>, states: Seq<GameState>|
        #[trigger] line_through(ms, states) && states[0] == s && states.last() == f
        && (forall|i: int| 0 <= i < ms.len() ==> names_move(field(t, (k + i) as nat), #[trigger] ms[i]))
        && stops_at(t, (k + ms.len()) as nat, f)
}

/// Field `j` of `t` ends the FEN fields of a `position fen` command.
pub open spec fn ends_fen(t: Seq<char>, j: nat) -> bool {
    field(t, j) == seq!['m', 'o', 'v', 'e', 's'] || field(t, j).len() == 0
}

/// What a `position` command does to the position `s`: `startpos` resets
/// to the opening setup, `fen` loads the FEN fields that follow (the command
/// is ignored when they are not well formed), and the moves listed after
/// `moves` are then played in turn up to the first one that is not legal.
pub open spec fn position_result(t: Seq<char>, s: GameState, f: GameState) -> bool {
    if field(t, 1) == seq!['s', 't', 'a', 'r', 't', 'p', 'o', 's'] {
        exists|s0: GameState| is_start(s0) && if field(t, 2) == seq!['m', 'o', 'v', 'e', 's'] {
            plays_tokens(t, 3, s0, f)
        } else {
            f == s0
        }
    } else if field(t, 1) == seq!['f', 'e', 'n'] && fen_ok_at(t, 2) {
        exists|j: nat, s0: GameState| 2 <= j && ends_fen(t, j) && (forall|i: nat| 2 <= i < j ==> !#[trigger] ends_fen(t, i))
            && describes_at(t, 2, s0) && if field(t, j).len() == 0 {
                f == s0
            } else {
                plays_tokens(t, j + 1, s0, f)
            }
    } else {
        f == s
    }
}

proof fn lemma_plays_tokens_witness(t: Seq<char>, k: nat, s: GameState, f: GameState, ms: Seq<Move>, states: Seq<GameState>)
    requires
        line_through(ms, states),
        states[0] == s,
        states.last() == f,
        forall|i: int| 0 <= i < ms.len() ==> names_move(field(t, (k + i) as nat), #[trigger] ms[i]),
        stops_at(t, (k + ms.len()) as nat, f),
    ensures
        plays_tokens(t, k, s, f),
{
}

proof fn lemma_next_field_after(t: Seq<char>, k: nat)
    ensures
        field_start(t, k) <= field_end(t, k) <= field_start(t, k + 1),
{
    lemma_skip_ge(t, word_end(t, field_start(t, k)));
    lemma_word_end_ge(t, field_start(t, k));
}

proof fn lemma_skip_ge(t: Seq<char>, i: int)
    ensures
        skip_spaces(t, i) >= i,
    decreases t.len() - i,
{
    if 0 <= i < t.len() && crate::fen::is_space(t[i]) {
        lemma_skip_ge(t, i + 1);
    }
}

proof fn lemma_word_end_ge(t: Seq<char>, i: int)
    ensures
        word_end(t, i) >= i,
    decreases t.len() - i,
{
    if 0 <= i < t.len() && !crate::fen::is_space(t[i]) {
        lemma_word_end_ge(t, i + 1);
    }
}

fn field_is(cs: &Vec<char>, start: usize, end: usize, w: &str) -> (res: bool)
    requires
        start <= end <= cs@.len(),
    ensures
        res == (cs@.subrange(start as int, end as int) == w@),
{
    let wc = chars_of(w);
    if end - start != wc.len() {
        return false;
    }
    let mut i: usize = 0;
    while i < wc.len()
        invariant
            i <= wc@.len(),
            wc@ == w@,
            end - start == wc@.len(),
            start <= end <= cs@.len(),
            forall|k: int| 0 <= k < i ==> cs@[start + k] == wc@[k],
        decreases wc@.len() - i,
    {
        if cs[start + i] != wc[i] {
            assert(cs@.subrange(start as int, end as int)[i as int] != w@[i as int]);
            return false;
        }
        i += 1;
    }
    assert(cs@.subrange(start as int, end as int) =~= w@);
    true
}

/// Plays the moves that the fields of `cs` from field `k` on name.
fn play_tokens(cs: &Vec<char>, first: Ghost<nat>, start: usize, end: usize, engine: &mut Engine)
    requires
        old(engine).wf(),
        start == field_start(cs@, first@),
        end == field_end(cs@, first@),
        start <= end <= cs@.len(),
    ensures
        final(engine).wf(),
        final(engine).depth_spec() == old(engine).depth_spec(),
        plays_tokens(cs@, first@, old(engine).position(), final(engine).position()),
{
    let ghost t = cs@;
    let ghost k = first@;
    let ghost s0 = engine.position();
    let ghost mut ms: Seq<Move> = Seq::empty();
    let ghost mut states: Seq<GameState> = seq![s0];
    let mut start = start;
    let mut end = end;
    let ghost mut j: nat = k;
    assert(line_through(ms, states));
    loop
        invariant
            engine.wf(),
            engine.depth_spec() == old(engine).depth_spec(),
            t == cs@,
            k == first@,
            s0 == old(engine).position(),
            j == k + ms.len(),
            start == field_start(t, j as nat),
            end == field_end(t, j as nat),
            start <= end <= t.len(),
            line_through(ms, states),
            states[0] == s0,
            states.last() == engine.position(),
            forall|i: int| 0 <= i < ms.len() ==> names_move(field(t, (k + i) as nat), #[trigger] ms[i]),
        decreases t.len() - start,
    {
        if start == end {
            assert(stops_at(t, (k + ms.len()) as nat, engine.position()));
            proof {
                lemma_plays_tokens_witness(t, k, s0, engine.position(), ms, states);
            }
            return;
        }
        let available = engine.legal_moves();
        let ghost here = engine.position();
        match parse_move_chars(cs, start, end, available.as_slice()) {
            Some(mv) => {
                assert(available@.contains(mv));
                match engine.make_move(mv) {
                    Ok(()) => {},
                    Err(_) => {
                        return;
                    },
                }
                proof {
                    let ms2 = ms.push(mv);
                    let states2 = states.push(engine.position());
                    assert forall|i: int| 0 <= i < ms2.len() implies legal(states2[i], #[trigger] ms2[i])
                        && crate::rules::applied(states2[i], ms2[i], states2[i + 1]) by {
                        if i < ms.len() {
                            assert(ms2[i] == ms[i]);
                        }
                    }
                    assert forall|i: int| 0 <= i < ms2.len() implies names_move(field(t, (k + i) as nat), #[trigger] ms2[i]) by {
                        if i < ms.len() {
                            assert(ms2[i] == ms[i]);
                        }
                    }
                    ms = ms2;
                    states = states2;
                    lemma_next_field_after(t, j as nat);
                }
                let next_start = skip_spaces_from(cs, end);
                let next_end = word_end_from(cs, next_start);
                start = next_start;
                end = next_end;
                proof {
                    j = j + 1;
                }
            },
            None => {
                proof {
                    if exists|m: Move| #[trigger] legal(here, m) && names_move(field(t, j as nat), m) {
                        let m = choose|m: Move| #[trigger] legal(here, m) && names_move(field(t, j as nat), m);
                        assert(available@.contains(m));
                        let i = choose|i: int| 0 <= i < available@.len() && available@[i] == m;
                        assert(!names_move(cs@.subrange(start as int, end as int), available@[i]));
                    }
                    assert(stops_at(t, (k + ms.len()) as nat, engine.position()));
                    lemma_plays_tokens_witness(t, k, s0, engine.position(), ms, states);
                }
                return;
            },
        }
    }
}

/// Carries out a `position` command on the engine.
pub fn handle_position(line: &str, engine: &mut Engine)
    requires
        old(engine).wf(),
    ensures
        final(engine).wf(),
        final(engine).depth_spec() == old(engine).depth_spec(),
        position_result(line@, old(engine).position(), final(engine).position()),
{
    let cs = chars_of(line);
    let ghost t = cs@;
    proof {
        reveal_strlit("startpos");
        reveal_strlit("moves");
        reveal_strlit("fen");
        assert("startpos"@ =~= seq!['s', 't', 'a', 'r', 't', 'p', 'o', 's']);
        assert("moves"@ =~= seq!['m', 'o', 'v', 'e', 's']);
        assert("fen"@ =~= seq!['f', 'e', 'n']);
    }
    let (s1, e1) = crate::fen::field_bounds(&cs, 1);
    if field_is(&cs, s1, e1, "startpos") {
        assert(field(t, 1) =~= seq!['s', 't', 'a', 'r', 't', 'p', 'o', 's']);
        engine.reset();
        let ghost s0 = engine.position();
        let (s2, e2) = crate::fen::field_bounds(&cs, 2);
        if field_is(&cs, s2, e2, "moves") {
            assert(field(t, 2) =~= seq!['m', 'o', 'v', 'e', 's']);
            let (s3, e3) = crate::fen::field_bounds(&cs, 3);
            play_tokens(&cs, Ghost(3), s3, e3, engine);
        } else {
            assert(field(t, 2) != seq!['m', 'o', 'v', 'e', 's']);
        }
        return;
    }
    assert(field(t, 1) != seq!['s', 't', 'a', 'r', 't', 'p', 'o', 's']);
    if !field_is(&cs, s1, e1, "fen") {
        assert(field(t, 1) != seq!['f', 'e', 'n']);
        return;
    }
    assert(field(t, 1) =~= seq!['f', 'e', 'n']);
    if !engine.set_fen_fields(&cs, 2) {
        return;
    }
    let ghost s0 = engine.position();
    let (mut start, mut end) = crate::fen::field_bounds(&cs, 2);
    let ghost mut j: nat = 2;
    while start < end && !field_is(&cs, start, end, "moves")
        invariant
            t == cs@,
            2 <= j,
            start == field_start(t, j),
            end == field_end(t, j),
            start <= end <= t.len(),
            forall|i: nat| 2 <= i < j ==> !#[trigger] ends_fen(t, i),
            engine.wf(),
            engine.depth_spec() == old(engine).depth_spec(),
            engine.position() == s0,
            describes_at(t, 2, s0),
            seq!['m', 'o', 'v', 'e', 's'] == "moves"@,
        decreases t.len() - start,
    {
        proof {
            lemma_next_field_after(t, j);
            assert(!ends_fen(t, j));
        }
        start = skip_spaces_from(&cs, end);
        end = word_end_from(&cs, start);
        proof {
            j = j + 1;
        }
    }
    assert(ends_fen(t, j));
    if start < end {
        proof {
            lemma_next_field_after(t, j);
        }
        let next_start = skip_spaces_from(&cs, end);
        let next_end = word_end_from(&cs, next_start);
        play_tokens(&cs, Ghost(j + 1), next_start, next_end, engine);
    }
}

} // verus!
