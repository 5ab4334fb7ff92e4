use vstd::prelude::*;
use crate::board::{board_wf, counts, initialize_game_board, total, BoardSpace, BOARD_SIZE};
use crate::cards::{
    chance_effects, chance_texts, community_chest_effects, community_chest_texts, effects, texts,
    CardDecks, DeckState,
};
use crate::player::Player;
use crate::random::new_rng;
use crate::turn::{
    added, extends, landings, landings_at, lemma_added_chain, lemma_landings_at_bound,
    lemma_landings_concat, lemma_no_rolls, lemma_redirects_concat, lemma_rolls_concat,
    lemma_turn_rest_append, redirects, rolls, take_player_turn, turn_rest, TurnEvent,
    deck_trace, lemma_deck_trace_concat, lemma_deck_trace_quiet, piles, DOUBLES_LIMIT,
    LANDINGS_PER_ROLL,
};

verus! {

/// Landings one turn slot can set off at most.
pub const LANDINGS_PER_SLOT: u64 = 9;

pub open spec fn digit(d: nat) -> char {
    seq!['0', '1', '2', '3', '4', '5', '6', '7', '8', '9'][d as int]
}

/// The decimal digits of `n`, most significant first, without leading zeros.
pub open spec fn decimal(n: nat) -> Seq<char>
    decreases n,
{
    if n < 10 {
        seq![digit(n)]
    } else {
        decimal(n / 10).push(digit(n % 10))
    }
}

/// The name of the player with the given number.
pub open spec fn player_label(number: nat) -> Seq<char> {
    "Player "@ + decimal(number)
}

/// Relies on std's `ToString` for `u32`, which formats through `Display`:
/// the number in decimal digits, with no sign or padding.
#[verifier::external_body]
fn decimal_text(number: u32) -> (r: String)
    ensures
        r@ == decimal(number as nat),
{
    number.to_string()
}

/// The name of the player with the given number.
fn player_name(number: u32) -> (r: String)
    ensures
        r@ == player_label(number as nat),
{
    let digits = decimal_text(number);
    let mut name = String::from_str("Player ");
    name.append(digits.as_str());
    name
}

/// Where each player stands, in player order.
pub open spec fn positions(players: Seq<Player>) -> Seq<int> {
    players.map_values(|p: Player| p.position())
}

/// Every player standing on the first space.
pub open spec fn start_positions(n: nat) -> Seq<int> {
    Seq::new(n, |j: int| 0int)
}

/// Parses one turn slot of the player with the given index off the front
/// of `events`: the marker that starts it, then a whole turn from where the
/// player stands. Gives where every player stands afterwards and the events
/// after the slot.
pub open spec fn slot_rest(positions: Seq<int>, player: int, events: Seq<TurnEvent>) -> Option<
    (Seq<int>, Seq<TurnEvent>),
> {
    if events.len() > 0 && 0 <= player < positions.len() && events[0] == TurnEvent::TurnStarted(
        player as usize,
    ) {
        match turn_rest(positions[player], 0, events.drop_first()) {
            Some((end, rest)) => Some((positions.update(player, end), rest)),
            None => None,
        }
    } else {
        None
    }
}

/// Parses the slots of the first `count` players, in player order.
pub open spec fn round_rest(positions: Seq<int>, count: nat, events: Seq<TurnEvent>) -> Option<
    (Seq<int>, Seq<TurnEvent>),
>
    decreases count,
{
    if count == 0 {
        Some((positions, events))
    } else {
        match round_rest(positions, (count - 1) as nat, events) {
            Some((p, rest)) => slot_rest(p, count - 1, rest),
            None => None,
        }
    }
}

/// Parses `rounds` whole rounds, each a slot for every player in order.
pub open spec fn game_rest(positions: Seq<int>, rounds: nat, events: Seq<TurnEvent>) -> Option<
    (Seq<int>, Seq<TurnEvent>),
>
    decreases rounds,
{
    if rounds == 0 {
        Some((positions, events))
    } else {
        match game_rest(positions, (rounds - 1) as nat, events) {
            Some((p, rest)) => round_rest(p, positions.len(), rest),
            None => None,
        }
    }
}

proof fn lemma_slot_rest_append(
    positions: Seq<int>,
    player: int,
    a: Seq<TurnEvent>,
    b: Seq<TurnEvent>,
)
    requires
        slot_rest(positions, player, a) is Some,
    ensures
        slot_rest(positions, player, a + b) == Some(
            (slot_rest(positions, player, a).unwrap().0, slot_rest(positions, player, a).unwrap().1 + b),
        ),
{
    assert((a + b)[0] == a[0]);
    assert((a + b).drop_first() =~= a.drop_first() + b);
    lemma_turn_rest_append(positions[player], 0, a.drop_first(), b);
}

proof fn lemma_round_rest_append(positions: Seq<int>, count: nat, a: Seq<TurnEvent>, b: Seq<TurnEvent>)
    requires
        round_rest(positions, count, a) is Some,
    ensures
        round_rest(positions, count, a + b) == Some(
            (round_rest(positions, count, a).unwrap().0, round_rest(positions, count, a).unwrap().1 + b),
        ),
    decreases count,
{
    if count > 0 {
        lemma_round_rest_append(positions, (count - 1) as nat, a, b);
        let p = round_rest(positions, (count - 1) as nat, a).unwrap().0;
        let rest = round_rest(positions, (count - 1) as nat, a).unwrap().1;
        lemma_slot_rest_append(p, count - 1, rest, b);
    }
}

proof fn lemma_game_rest_append(positions: Seq<int>, rounds: nat, a: Seq<TurnEvent>, b: Seq<TurnEvent>)
    requires
        game_rest(positions, rounds, a) is Some,
    ensures
        game_rest(positions, rounds, a + b) == Some(
            (game_rest(positions, rounds, a).unwrap().0, game_rest(positions, rounds, a).unwrap().1 + b),
        ),
    decreases rounds,
{
    if rounds > 0 {
        lemma_game_rest_append(positions, (rounds - 1) as nat, a, b);
        let p = game_rest(positions, (rounds - 1) as nat, a).unwrap().0;
        let rest = game_rest(positions, (rounds - 1) as nat, a).unwrap().1;
        lemma_round_rest_append(p, positions.len(), rest, b);
    }
}

proof fn lemma_total_zero(s: Seq<nat>)
    requires
        forall|i: int| 0 <= i < s.len() ==> s[i] == 0,
    ensures
        total(s) == 0,
    decreases s.len(),
{
    if s.len() > 0 {
        lemma_total_zero(s.drop_last());
    }
}

/// What a simulation produces: the narration, in order, and the board with
/// its landing counts.
pub struct SimulationReport {
    pub events: Vec<TurnEvent>,
    pub board: Vec<BoardSpace>,
}

/// The players of a simulation, in the fixed order in which they play.
pub struct GameSimulation {
    players: Vec<Player>,
}

impl GameSimulation {
    pub closed spec fn players(&self) -> Seq<Player> {
        self.players@
    }

    pub fn get_players(&self) -> (r: &Vec<Player>)
        ensures
            r@ == self.players(),
    {
        &self.players
    }

    /// `player_count` players, numbered from 1, all on the first space.
    pub fn new(player_count: u32) -> (r: Self)
        ensures
            r.players().len() == player_count,
            forall|i: int|
                0 <= i < player_count ==> (#[trigger] r.players()[i]).wf() && r.players()[i].position()
                    == 0 && r.players()[i].name_view() == player_label((i + 1) as nat),
    {
        let mut players: Vec<Player> = Vec::new();
        let mut i: u32 = 0;
        while i < player_count
            invariant
                i <= player_count,
                players@.len() == i,
                forall|j: int|
                    0 <= j < i ==> (#[trigger] players@[j]).wf() && players@[j].position() == 0
                        && players@[j].name_view() == player_label((j + 1) as nat),
            decreases player_count - i,
        {
            players.push(Player::new(player_name(i + 1)));
            i = i + 1;
        }
        GameSimulation { players }
    }

    /// Plays `turn_count` rounds from the first space, each player taking one
    /// turn slot per round in player order, on a fresh board with fresh
    /// decks. The board's counts are the landings in the narration, space
    /// by space, and the decks change by exactly the draws it logs.
    pub fn run_simulation(&mut self, turn_count: u32) -> (report: SimulationReport)
        requires
            old(self).players().len() * turn_count * LANDINGS_PER_SLOT <= u64::MAX,
        ensures
            final(self).players().len() == old(self).players().len(),
            forall|i: int|
                0 <= i < old(self).players().len() ==> (#[trigger] final(self).players()[i]).wf()
                    && final(self).players()[i].name_view() == old(self).players()[i].name_view(),
            board_wf(report.board@),
            game_rest(
                start_positions(old(self).players().len()),
                turn_count as nat,
                report.events@,
            ) == Some((positions(final(self).players()), Seq::<TurnEvent>::empty())),
            forall|i: int|
                0 <= i < BOARD_SIZE ==> #[trigger] counts(report.board@)[i] == landings_at(
                    report.events@,
                    i,
                ),
            total(counts(report.board@)) == landings(report.events@),
            landings(report.events@) == rolls(report.events@).len() + redirects(report.events@),
            rolls(report.events@).len() >= old(self).players().len() * turn_count,
            landings(report.events@) >= old(self).players().len() * turn_count,
            exists|start: (DeckState, DeckState), end: (DeckState, DeckState)|
                fresh_piles(start) && #[trigger] deck_trace(start, end, report.events@),
    {
        let n = self.players.len();
        let ghost names = self.players@.map_values(|p: Player| p.name_view());
        let mut k: usize = 0;
        while k < n
            invariant
                k <= n,
                self.players@.len() == n,
                names.len() == n,
                forall|j: int|
                    0 <= j < n ==> (#[trigger] self.players@[j]).name_view() == names[j],
                forall|j: int| 0 <= j < k ==> (#[trigger] self.players@[j]).position() == 0,
                forall|j: int| 0 <= j < k ==> (#[trigger] self.players@[j]).wf(),
            decreases n - k,
        {
            self.players[k].set_current_space(0);
            k = k + 1;
        }
        let ghost zeros = positions(self.players@);
        proof {
            assert(zeros =~= start_positions(n as nat));
        }
        let mut rng = new_rng();
        let mut board = initialize_game_board();
        let mut card_decks = CardDecks::new();
        let ghost fresh = piles(card_decks);
        let mut log: Vec<TurnEvent> = Vec::new();
        proof {
            lemma_total_zero(counts(board@));
            assert(log@ =~= Seq::<TurnEvent>::empty());
            assert(rolls(log@) == Seq::<(u8, u8)>::empty());
            assert(landings(log@) == 0 && redirects(log@) == 0);
            lemma_deck_trace_quiet(fresh, log@);
        }
        let mut turn: u32 = 0;
        while turn < turn_count
            invariant
                turn <= turn_count,
                n * turn_count * LANDINGS_PER_SLOT <= u64::MAX,
                self.players@.len() == n,
                names.len() == n,
                zeros == start_positions(n as nat),
                forall|j: int|
                    0 <= j < n ==> (#[trigger] self.players@[j]).name_view() == names[j],
                forall|j: int| 0 <= j < n ==> (#[trigger] self.players@[j]).wf(),
                board_wf(board@),
                card_decks.wf(),
                fresh_piles(fresh),
                deck_trace(fresh, piles(card_decks), log@),
                game_rest(zeros, turn as nat, log@) == Some(
                    (positions(self.players@), Seq::<TurnEvent>::empty()),
                ),
                forall|i: int|
                    0 <= i < BOARD_SIZE ==> #[trigger] counts(board@)[i] == landings_at(log@, i),
                forall|i: int|
                    0 <= i < BOARD_SIZE ==> #[trigger] counts(board@)[i] <= LANDINGS_PER_SLOT * (
                    turn * n),
                total(counts(board@)) == landings(log@),
                landings(log@) == rolls(log@).len() + redirects(log@),
                rolls(log@).len() >= turn * n,
            decreases turn_count - turn,
        {
            let ghost round_start = log@;
            let ghost p_start = positions(self.players@);
            let mut i: usize = 0;
            proof {
                assert(added(round_start, log@) =~= Seq::<TurnEvent>::empty());
                assert(log@.subrange(0, round_start.len() as int) =~= round_start);
                assert(positions(self.players@) =~= p_start);
            }
            while i < n
                invariant
                    turn < turn_count,
                    i <= n,
                    n * turn_count * LANDINGS_PER_SLOT <= u64::MAX,
                    self.players@.len() == n,
                    names.len() == n,
                    p_start.len() == n,
                    forall|j: int|
                        0 <= j < n ==> (#[trigger] self.players@[j]).name_view() == names[j],
                    forall|j: int| 0 <= j < n ==> (#[trigger] self.players@[j]).wf(),
                    board_wf(board@),
                    card_decks.wf(),
                    deck_trace(fresh, piles(card_decks), log@),
                    extends(round_start, log@),
                    round_rest(p_start, i as nat, added(round_start, log@)) == Some(
                        (positions(self.players@), Seq::<TurnEvent>::empty()),
                    ),
                    forall|x: int|
                        0 <= x < BOARD_SIZE ==> #[trigger] counts(board@)[x] == landings_at(
                            log@,
                            x,
                        ),
                    forall|x: int|
                        0 <= x < BOARD_SIZE ==> #[trigger] counts(board@)[x] <= LANDINGS_PER_SLOT
                            * (turn * n + i),
                    total(counts(board@)) == landings(log@),
                    landings(log@) == rolls(log@).len() + redirects(log@),
                    rolls(log@).len() >= turn * n + i,
                decreases n - i,
            {
                let ghost log0 = log@;
                let ghost decks0 = piles(card_decks);
                proof {
                    assert((turn * n + i) + 1 <= turn_count * n) by (nonlinear_arith)
                        requires
                            turn < turn_count,
                            i < n,
                    ;
                    assert(LANDINGS_PER_SLOT * (turn * n + i) + LANDINGS_PER_SLOT <= u64::MAX)
                        by (nonlinear_arith)
                        requires
                            (turn * n + i) + 1 <= turn_count * n,
                            n * turn_count * LANDINGS_PER_SLOT <= u64::MAX,
                            LANDINGS_PER_SLOT == 9,
                    ;
                }
                play_slot(&mut self.players, i, &mut rng, &mut board, &mut card_decks, &mut log);
                proof {
                    let slot = added(log0, log@);
                    lemma_added_chain(round_start, log0, log@);
                    assert(log0 + slot =~= log@);
                    lemma_landings_concat(log0, slot);
                    lemma_rolls_concat(log0, slot);
                    lemma_redirects_concat(log0, slot);
                    lemma_deck_trace_concat(fresh, decks0, piles(card_decks), log0, slot);
                    assert forall|x: int| 0 <= x < BOARD_SIZE implies #[trigger] counts(board@)[x]
                        <= LANDINGS_PER_SLOT * (turn * n + i + 1) by {
                        assert(LANDINGS_PER_SLOT * (turn * n + i + 1) == LANDINGS_PER_SLOT * (
                        turn * n + i) + LANDINGS_PER_SLOT) by (nonlinear_arith);
                    }
                    let before = added(round_start, log0);
                    lemma_round_rest_append(p_start, i as nat, before, slot);
                    assert(before + slot =~= added(round_start, log@));
                    assert(Seq::<TurnEvent>::empty() + slot =~= slot);
                }
                i = i + 1;
            }
            proof {
                lemma_game_rest_append(zeros, turn as nat, round_start, added(round_start, log@));
                assert(round_start + added(round_start, log@) =~= log@);
                assert(Seq::<TurnEvent>::empty() + added(round_start, log@) =~= added(
                    round_start,
                    log@,
                ));
                assert(turn * n + n == (turn + 1) * n) by (nonlinear_arith);
            }
            turn = turn + 1;
        }
        proof {
            assert(turn_count * n == n * turn_count) by (nonlinear_arith);
            assert(fresh_piles(fresh) && deck_trace(fresh, piles(card_decks), log@));
        }
        SimulationReport { events: log, board }
    }
}

/// Both decks as they are built: every card in the discard pile, in the
/// order the deck is built.
pub open spec fn fresh_piles(p: (DeckState, DeckState)) -> bool {
    &&& p.0.draw.len() == 0
    &&& effects(p.0.discard) == chance_effects()
    &&& texts(p.0.discard) == chance_texts()
    &&& p.1.draw.len() == 0
    &&& effects(p.1.discard) == community_chest_effects()
    &&& texts(p.1.discard) == community_chest_texts()
}

/// Plays one turn slot for the player with the given index: the marker that
/// starts it, then a whole turn from where the player stands.
fn play_slot(
    players: &mut Vec<Player>,
    i: usize,
    rng: &mut rand::rngs::ThreadRng,
    board: &mut Vec<BoardSpace>,
    card_decks: &mut CardDecks,
    log: &mut Vec<TurnEvent>,
)
    requires
        i < old(players)@.len(),
        forall|j: int| 0 <= j < old(players)@.len() ==> (#[trigger] old(players)@[j]).wf(),
        board_wf(old(board)@),
        old(card_decks).wf(),
        forall|x: int|
            0 <= x < BOARD_SIZE ==> #[trigger] counts(old(board)@)[x] + LANDINGS_PER_SLOT
                <= u64::MAX,
    ensures
        final(players)@.len() == old(players)@.len(),
        forall|j: int|
            0 <= j < old(players)@.len() ==> (#[trigger] final(players)@[j]).wf()
                && final(players)@[j].name_view() == old(players)@[j].name_view(),
        board_wf(final(board)@),
        final(card_decks).wf(),
        extends(old(log)@, final(log)@),
        slot_rest(positions(old(players)@), i as int, added(old(log)@, final(log)@)) == Some(
            (positions(final(players)@), Seq::<TurnEvent>::empty()),
        ),
        forall|x: int|
            0 <= x < BOARD_SIZE ==> #[trigger] counts(final(board)@)[x] == counts(old(board)@)[x]
                + landings_at(added(old(log)@, final(log)@), x),
        forall|x: int|
            0 <= x < BOARD_SIZE ==> #[trigger] counts(final(board)@)[x] <= counts(old(board)@)[x]
                + LANDINGS_PER_SLOT,
        total(counts(final(board)@)) == total(counts(old(board)@)) + landings(
            added(old(log)@, final(log)@),
        ),
        added(old(log)@, final(log)@)[0] == TurnEvent::TurnStarted(i),
        added(old(log)@, final(log)@).last() is Landed || added(old(log)@, final(log)@).last() is DrewCard,
        rolls(added(old(log)@, final(log)@)).len() >= 1,
        landings(added(old(log)@, final(log)@)) == rolls(added(old(log)@, final(log)@)).len()
            + redirects(added(old(log)@, final(log)@)),
        deck_trace(piles(*old(card_decks)), piles(*final(card_decks)), added(old(log)@, final(log)@)),
{
    let ghost log0 = log@;
    let ghost players0 = players@;
    let ghost decks0 = piles(*card_decks);
    log.push(TurnEvent::TurnStarted(i));
    let ghost log1 = log@;
    proof {
        assert(LANDINGS_PER_ROLL * (DOUBLES_LIMIT - 0u8) == LANDINGS_PER_SLOT);
    }
    take_player_turn(&mut players[i], rng, board, card_decks, 0, log);
    proof {
        let marker = seq![TurnEvent::TurnStarted(i)];
        let turn_events = added(log1, log@);
        assert(log1.subrange(0, log0.len() as int) =~= log0);
        assert(added(log0, log1) =~= marker);
        lemma_added_chain(log0, log1, log@);
        let slot = added(log0, log@);
        assert(slot =~= marker + turn_events);
        lemma_landings_concat(marker, turn_events);
        assert(landings(marker) == 0 && forall|x: int| #[trigger] landings_at(marker, x) == 0) by {
            assert(marker.drop_last() =~= Seq::<TurnEvent>::empty());
            assert(landings(Seq::<TurnEvent>::empty()) == 0);
            assert forall|x: int| #[trigger] landings_at(marker, x) == 0 by {
                assert(landings_at(Seq::<TurnEvent>::empty(), x) == 0);
            }
        }
        assert forall|x: int| 0 <= x < BOARD_SIZE implies #[trigger] counts(board@)[x] <= counts(
            old(board)@,
        )[x] + LANDINGS_PER_SLOT by {
            lemma_landings_at_bound(turn_events, x);
        }
        lemma_no_rolls(marker);
        lemma_rolls_concat(marker, turn_events);
        lemma_redirects_concat(marker, turn_events);
        assert(redirects(marker) == 0);
        assert(slot.last() == turn_events.last());
        lemma_deck_trace_quiet(decks0, marker);
        lemma_deck_trace_concat(decks0, decks0, piles(*card_decks), marker, turn_events);
        assert(slot[0] == TurnEvent::TurnStarted(i));
        assert(slot.drop_first() =~= turn_events);
        lemma_turn_rest_append(players0[i as int].position(), 0, turn_events, Seq::empty());
        assert(turn_events + Seq::<TurnEvent>::empty() =~= turn_events);
        assert(positions(players@) =~= positions(players0).update(
            i as int,
            players@[i as int].position(),
        ));
    }
}

/// Plays `turn_count` rounds for `player_count` new players.
pub fn run_simulation(player_count: u32, turn_count: u32) -> (report: SimulationReport)
    requires
        player_count * turn_count * LANDINGS_PER_SLOT <= u64::MAX,
    ensures
        board_wf(report.board@),
        game_rest(start_positions(player_count as nat), turn_count as nat, report.events@) is Some,
        game_rest(start_positions(player_count as nat), turn_count as nat, report.events@).unwrap().1
            == Seq::<TurnEvent>::empty(),
        forall|i: int|
            0 <= i < BOARD_SIZE ==> #[trigger] counts(report.board@)[i] == landings_at(
                report.events@,
                i,
            ),
        total(counts(report.board@)) == landings(report.events@),
        landings(report.events@) == rolls(report.events@).len() + redirects(report.events@),
        rolls(report.events@).len() >= player_count * turn_count,
        landings(report.events@) >= player_count * turn_count,
        exists|start: (DeckState, DeckState), end: (DeckState, DeckState)|
            fresh_piles(start) && #[trigger] deck_trace(start, end, report.events@),
{
    let mut simulation = GameSimulation::new(player_count);
    simulation.run_simulation(turn_count)
}

} // verus!
