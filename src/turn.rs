use rand::rngs::ThreadRng;
use vstd::prelude::*;
use crate::board::{
    counts, record_landing, space_action, space_rank, total, wrap_position, wrapped, board_wf,
    BoardSpace, CardDeckEnum, SpaceActionEnum, BOARD_SIZE, JAIL,
};
use crate::cards::{draws, effect_target, CardDecks, DeckState, GameActionCard};
use crate::player::Player;
use crate::random::random_below;

verus! {

/// A roll of doubles this many times in a row sends the player to jail.
pub const DOUBLES_LIMIT: u8 = 3;

/// Landings one roll can set off at most: the roll's own and two redirects.
pub const LANDINGS_PER_ROLL: u64 = 3;

/// One event of the narration that a simulation produces.
#[derive(Clone, Copy, Debug, PartialEq, Eq)]
pub enum TurnEvent {
    /// The player with the given index begins a turn.
    TurnStarted(usize),
    /// Two dice were rolled; `doubles` is how many doubles in a row this
    /// roll makes, or 0 where the dice differ.
    Rolled { dice1: u8, dice2: u8, doubles: u8 },
    /// The player landed on the space with the given index.
    Landed(u8),
    /// The player drew the given card from the given deck.
    DrewCard(CardDeckEnum, GameActionCard),
}

/// The decision a roll makes, before any space effect is resolved.
#[derive(Clone, Copy, Debug, PartialEq, Eq)]
pub struct RollOutcome {
    /// The space the roll lands on.
    pub landing: u8,
    /// How many doubles in a row this roll makes, or 0 where the dice differ.
    pub doubles_count: u8,
    /// The player rolls again once this roll is resolved.
    pub roll_again: bool,
    /// The player was sent straight to jail for a third doubles.
    pub jailed: bool,
}

pub open spec fn valid_die(d: int) -> bool {
    1 <= d <= 6
}

pub open spec fn doubles_after(dice1: int, dice2: int, doubles_count: int) -> int {
    if dice1 == dice2 {
        doubles_count + 1
    } else {
        0
    }
}

/// The third doubles in a row sends the player to jail.
pub open spec fn forced_jail(dice1: int, dice2: int, doubles_count: int) -> bool {
    dice1 == dice2 && doubles_count + 1 == DOUBLES_LIMIT
}

/// A first or second doubles earns another roll.
pub open spec fn rolls_again(dice1: int, dice2: int, doubles_count: int) -> bool {
    dice1 == dice2 && doubles_count + 1 < DOUBLES_LIMIT
}

/// The space a roll lands on: jail for a third doubles, else the space the
/// dice count to, one lap less past the last space.
pub open spec fn roll_landing(position: int, dice1: int, dice2: int, doubles_count: int) -> int {
    if forced_jail(dice1, dice2, doubles_count) {
        JAIL as int
    } else {
        wrapped(position + dice1 + dice2)
    }
}

/// Parses the events of one landing chain from `pos` off the front of
/// `events`: the landing; for go to jail, the chain from jail; for a draw
/// space, the card drawn from that space's deck and, where the card moves
/// the player, the chain from its target. Gives the space the chain ends
/// on and the events after it, or `None` where the events are no such chain.
pub open spec fn chain_rest(pos: int, events: Seq<TurnEvent>) -> Option<(int, Seq<TurnEvent>)>
    decreases events.len(),
{
    if events.len() == 0 || events[0] != TurnEvent::Landed(pos as u8) || !(0 <= pos
        < BOARD_SIZE) {
        None
    } else {
        match space_action(pos) {
            SpaceActionEnum::NoAction => Some((pos, events.drop_first())),
            SpaceActionEnum::MovePlayer(t) => chain_rest(t as int, events.drop_first()),
            SpaceActionEnum::DrawCard(kind) => {
                if events.len() < 2 {
                    None
                } else {
                    match events[1] {
                        TurnEvent::DrewCard(k, card) => {
                            if k != kind {
                                None
                            } else {
                                match effect_target(card.effect(), pos) {
                                    None => Some((pos, events.subrange(2, events.len() as int))),
                                    Some(t) => chain_rest(
                                        t,
                                        events.subrange(2, events.len() as int),
                                    ),
                                }
                            }
                        },
                        _ => None,
                    }
                }
            },
        }
    }
}

/// Parses the events of one roll from `position` off the front of `events`:
/// the roll, then either the jail landing of a third doubles, which ends
/// the roll, or the landing chain from the space the dice count to.
pub open spec fn roll_rest(position: int, doubles_count: int, events: Seq<TurnEvent>) -> Option<
    (int, Seq<TurnEvent>),
> {
    if events.len() == 0 {
        None
    } else {
        match events[0] {
            TurnEvent::Rolled { dice1, dice2, doubles } => {
                if !valid_die(dice1 as int) || !valid_die(dice2 as int) || doubles != doubles_after(
                    dice1 as int,
                    dice2 as int,
                    doubles_count,
                ) {
                    None
                } else if forced_jail(dice1 as int, dice2 as int, doubles_count) {
                    if events.len() >= 2 && events[1] == TurnEvent::Landed(JAIL) {
                        Some((JAIL as int, events.subrange(2, events.len() as int)))
                    } else {
                        None
                    }
                } else {
                    chain_rest(
                        roll_landing(position, dice1 as int, dice2 as int, doubles_count),
                        events.drop_first(),
                    )
                }
            },
            _ => None,
        }
    }
}

/// Whether the roll that `event` records earns another roll.
pub open spec fn event_rolls_again(event: TurnEvent, doubles_count: int) -> bool {
    match event {
        TurnEvent::Rolled { dice1, dice2, .. } => rolls_again(
            dice1 as int,
            dice2 as int,
            doubles_count,
        ),
        _ => false,
    }
}

/// Parses the events of one turn slot from `position` off the front of
/// `events`: rolls, each resolved in full, for as long as doubles earn
/// another roll.
pub open spec fn turn_rest(position: int, doubles_count: int, events: Seq<TurnEvent>) -> Option<
    (int, Seq<TurnEvent>),
>
    decreases events.len(),
{
    match roll_rest(position, doubles_count, events) {
        None => None,
        Some((end, rest)) => {
            if event_rolls_again(events[0], doubles_count) && rest.len() < events.len() {
                turn_rest(end, doubles_count + 1, rest)
            } else {
                Some((end, rest))
            }
        },
    }
}

/// How many of the events are landings.
pub open spec fn landings(events: Seq<TurnEvent>) -> nat
    decreases events.len(),
{
    if events.len() == 0 {
        0
    } else {
        landings(events.drop_last()) + if events.last() is Landed {
            1nat
        } else {
            0nat
        }
    }
}

/// How many of the events are landings on the space with the given index.
pub open spec fn landings_at(events: Seq<TurnEvent>, index: int) -> nat
    decreases events.len(),
{
    if events.len() == 0 {
        0
    } else {
        landings_at(events.drop_last(), index) + if events.last() == TurnEvent::Landed(
            index as u8,
        ) && 0 <= index < 256 {
            1nat
        } else {
            0nat
        }
    }
}

/// How many landings among the events come straight after a landing or a
/// card draw: the landings that a go-to-jail space or a card sent the
/// player to, rather than a roll of the dice.
pub open spec fn redirects(events: Seq<TurnEvent>) -> nat
    decreases events.len(),
{
    if events.len() < 2 {
        0
    } else {
        redirects(events.drop_last()) + if events.last() is Landed && (events[events.len() - 2] is Landed
            || events[events.len() - 2] is DrewCard) {
            1nat
        } else {
            0nat
        }
    }
}

/// `b` starts with a landing right after the landing or card draw that ends `a`.
pub open spec fn follows_on(a: Seq<TurnEvent>, b: Seq<TurnEvent>) -> bool {
    a.len() > 0 && b.len() > 0 && b[0] is Landed && (a.last() is Landed || a.last() is DrewCard)
}

pub(crate) proof fn lemma_redirects_concat(a: Seq<TurnEvent>, b: Seq<TurnEvent>)
    ensures
        redirects(a + b) == redirects(a) + redirects(b) + if follows_on(a, b) {
            1nat
        } else {
            0nat
        },
    decreases b.len(),
{
    if b.len() == 0 {
        assert(a + b =~= a);
    } else if b.len() == 1 {
        if a.len() > 0 {
            assert((a + b).drop_last() =~= a);
        } else {
            assert(a + b =~= b);
        }
    } else {
        lemma_redirects_concat(a, b.drop_last());
        assert((a + b).drop_last() =~= a + b.drop_last());
        assert((a + b)[(a + b).len() - 2] == b[b.len() - 2]);
    }
}

pub(crate) proof fn lemma_rolls_concat(a: Seq<TurnEvent>, b: Seq<TurnEvent>)
    ensures
        rolls(a + b) == rolls(a) + rolls(b),
    decreases a.len(),
{
    if a.len() == 0 {
        assert(a + b =~= b);
        assert(rolls(a) =~= Seq::<(u8, u8)>::empty());
        assert(rolls(a) + rolls(b) =~= rolls(b));
    } else {
        lemma_rolls_concat(a.drop_first(), b);
        assert((a + b).drop_first() =~= a.drop_first() + b);
        assert((a + b)[0] == a[0]);
        if let TurnEvent::Rolled { dice1, dice2, .. } = a[0] {
            assert(seq![(dice1, dice2)] + (rolls(a.drop_first()) + rolls(b)) =~= (seq![
                (dice1, dice2),
            ] + rolls(a.drop_first())) + rolls(b));
        }
    }
}

pub(crate) proof fn lemma_no_rolls(events: Seq<TurnEvent>)
    requires
        forall|i: int| 0 <= i < events.len() ==> !(#[trigger] events[i] is Rolled),
    ensures
        rolls(events) == Seq::<(u8, u8)>::empty(),
    decreases events.len(),
{
    if events.len() > 0 {
        assert forall|i: int| 0 <= i < events.drop_first().len() implies !(
        #[trigger] events.drop_first()[i] is Rolled) by {
            assert(events.drop_first()[i] == events[i + 1]);
        }
        lemma_no_rolls(events.drop_first());
    }
}

/// The dice of every roll among the events, in order.
pub open spec fn rolls(events: Seq<TurnEvent>) -> Seq<(u8, u8)>
    decreases events.len(),
{
    if events.len() == 0 {
        Seq::empty()
    } else {
        match events[0] {
            TurnEvent::Rolled { dice1, dice2, .. } => seq![(dice1, dice2)] + rolls(
                events.drop_first(),
            ),
            _ => rolls(events.drop_first()),
        }
    }
}

/// The states of both decks: chance first, community chest second.
pub open spec fn piles(decks: CardDecks) -> (DeckState, DeckState) {
    (decks.chance()@, decks.community_chest()@)
}

/// The state of the deck of the given kind.
pub open spec fn pile(p: (DeckState, DeckState), kind: CardDeckEnum) -> DeckState {
    match kind {
        CardDeckEnum::Chance => p.0,
        CardDeckEnum::CommunityChest => p.1,
    }
}

pub open spec fn other_kind(kind: CardDeckEnum) -> CardDeckEnum {
    match kind {
        CardDeckEnum::Chance => CardDeckEnum::CommunityChest,
        CardDeckEnum::CommunityChest => CardDeckEnum::Chance,
    }
}

/// One draw of `card` from the deck of the given kind; the other deck is
/// left as it was.
pub open spec fn deck_step(
    before: (DeckState, DeckState),
    after: (DeckState, DeckState),
    kind: CardDeckEnum,
    card: GameActionCard,
) -> bool {
    &&& draws(pile(before, kind), pile(after, kind), card)
    &&& pile(after, other_kind(kind)) == pile(before, other_kind(kind))
}

/// The decks go from `before` to `after` by the draws that the events log,
/// in order, each from the deck it names, passing through the states in
/// `mids`, one after each draw.
pub open spec fn trace_through(
    before: (DeckState, DeckState),
    after: (DeckState, DeckState),
    events: Seq<TurnEvent>,
    mids: Seq<(DeckState, DeckState)>,
) -> bool
    decreases events.len(),
{
    if events.len() == 0 {
        after == before && mids.len() == 0
    } else {
        match events[0] {
            TurnEvent::DrewCard(kind, card) => {
                &&& mids.len() > 0
                &&& deck_step(before, mids[0], kind, card)
                &&& trace_through(mids[0], after, events.drop_first(), mids.drop_first())
            },
            _ => trace_through(before, after, events.drop_first(), mids),
        }
    }
}

/// The decks go from `before` to `after` by exactly the draws that the
/// events log, in order, each from the deck it names: with no card drawn
/// among the events the decks are unchanged.
pub open spec fn deck_trace(
    before: (DeckState, DeckState),
    after: (DeckState, DeckState),
    events: Seq<TurnEvent>,
) -> bool {
    exists|mids: Seq<(DeckState, DeckState)>| #[trigger] trace_through(before, after, events, mids)
}

proof fn lemma_trace_quiet(decks: (DeckState, DeckState), events: Seq<TurnEvent>)
    requires
        forall|i: int| 0 <= i < events.len() ==> !(#[trigger] events[i] is DrewCard),
    ensures
        trace_through(decks, decks, events, Seq::empty()),
    decreases events.len(),
{
    if events.len() > 0 {
        assert(!(events[0] is DrewCard));
        assert forall|i: int| 0 <= i < events.drop_first().len() implies !(
        #[trigger] events.drop_first()[i] is DrewCard) by {
            assert(events.drop_first()[i] == events[i + 1]);
        }
        lemma_trace_quiet(decks, events.drop_first());
    }
}

pub(crate) proof fn lemma_deck_trace_quiet(decks: (DeckState, DeckState), events: Seq<TurnEvent>)
    requires
        forall|i: int| 0 <= i < events.len() ==> !(#[trigger] events[i] is DrewCard),
    ensures
        deck_trace(decks, decks, events),
{
    lemma_trace_quiet(decks, events);
}

proof fn lemma_trace_concat(
    x: (DeckState, DeckState),
    y: (DeckState, DeckState),
    z: (DeckState, DeckState),
    a: Seq<TurnEvent>,
    b: Seq<TurnEvent>,
    ma: Seq<(DeckState, DeckState)>,
    mb: Seq<(DeckState, DeckState)>,
)
    requires
        trace_through(x, y, a, ma),
        trace_through(y, z, b, mb),
    ensures
        trace_through(x, z, a + b, ma + mb),
    decreases a.len(),
{
    if a.len() == 0 {
        assert(a + b =~= b);
        assert(ma + mb =~= mb);
    } else {
        assert((a + b)[0] == a[0]);
        assert((a + b).drop_first() =~= a.drop_first() + b);
        match a[0] {
            TurnEvent::DrewCard(kind, card) => {
                lemma_trace_concat(ma[0], y, z, a.drop_first(), b, ma.drop_first(), mb);
                assert((ma + mb)[0] == ma[0]);
                assert((ma + mb).drop_first() =~= ma.drop_first() + mb);
            },
            _ => {
                lemma_trace_concat(x, y, z, a.drop_first(), b, ma, mb);
            },
        }
    }
}

pub(crate) proof fn lemma_deck_trace_concat(
    x: (DeckState, DeckState),
    y: (DeckState, DeckState),
    z: (DeckState, DeckState),
    a: Seq<TurnEvent>,
    b: Seq<TurnEvent>,
)
    requires
        deck_trace(x, y, a),
        deck_trace(y, z, b),
    ensures
        deck_trace(x, z, a + b),
{
    let ma = choose|ma: Seq<(DeckState, DeckState)>| #[trigger] trace_through(x, y, a, ma);
    let mb = choose|mb: Seq<(DeckState, DeckState)>| #[trigger] trace_through(y, z, b, mb);
    lemma_trace_concat(x, y, z, a, b, ma, mb);
}

/// Logging one draw of `card`, made from the deck of the given kind, takes
/// the decks from `before` to `after`.
pub(crate) proof fn lemma_deck_trace_draw(
    before: (DeckState, DeckState),
    after: (DeckState, DeckState),
    kind: CardDeckEnum,
    card: GameActionCard,
)
    requires
        deck_step(before, after, kind, card),
    ensures
        deck_trace(before, after, seq![TurnEvent::DrewCard(kind, card)]),
{
    let events = seq![TurnEvent::DrewCard(kind, card)];
    assert(events.drop_first() =~= Seq::<TurnEvent>::empty());
    assert(seq![after].drop_first() =~= Seq::<(DeckState, DeckState)>::empty());
    assert(trace_through(after, after, Seq::empty(), Seq::empty()));
    assert(seq![after][0] == after);
    assert(trace_through(before, after, events, seq![after]));
}

/// What a roll decides: where it lands, how many doubles in a row it makes,
/// and whether another roll follows.
pub fn roll_outcome(position: u8, dice1: u8, dice2: u8, doubles_count: u8) -> (r: RollOutcome)
    requires
        position < BOARD_SIZE,
        valid_die(dice1 as int),
        valid_die(dice2 as int),
        doubles_count < DOUBLES_LIMIT,
    ensures
        r.landing as int == roll_landing(
            position as int,
            dice1 as int,
            dice2 as int,
            doubles_count as int,
        ),
        r.landing < BOARD_SIZE,
        r.doubles_count as int == doubles_after(dice1 as int, dice2 as int, doubles_count as int),
        r.roll_again == rolls_again(dice1 as int, dice2 as int, doubles_count as int),
        r.jailed == forced_jail(dice1 as int, dice2 as int, doubles_count as int),
{
    let doubles = dice1 == dice2;
    let count = if doubles {
        doubles_count + 1
    } else {
        0
    };
    let jailed = doubles && count == DOUBLES_LIMIT;
    let landing = if jailed {
        JAIL
    } else {
        wrap_position(position + dice1 + dice2)
    };
    RollOutcome { landing, doubles_count: count, roll_again: doubles && count < DOUBLES_LIMIT, jailed }
}

/// `after` is `before` with events added at the end.
pub open spec fn extends(before: Seq<TurnEvent>, after: Seq<TurnEvent>) -> bool {
    after.len() >= before.len() && after.subrange(0, before.len() as int) == before
}

/// The events added at the end of `before` to make `after`.
pub open spec fn added(before: Seq<TurnEvent>, after: Seq<TurnEvent>) -> Seq<TurnEvent> {
    after.subrange(before.len() as int, after.len() as int)
}

pub(crate) proof fn lemma_added_chain(a: Seq<TurnEvent>, b: Seq<TurnEvent>, c: Seq<TurnEvent>)
    requires
        extends(a, b),
        extends(b, c),
    ensures
        extends(a, c),
        added(a, c) == added(a, b) + added(b, c),
{
    assert(c.subrange(0, a.len() as int) =~= b.subrange(0, a.len() as int));
    assert(added(a, c) =~= added(a, b) + added(b, c));
}

pub(crate) proof fn lemma_landings_concat(a: Seq<TurnEvent>, b: Seq<TurnEvent>)
    ensures
        landings(a + b) == landings(a) + landings(b),
        forall|i: int| #[trigger] landings_at(a + b, i) == landings_at(a, i) + landings_at(b, i),
    decreases b.len(),
{
    if b.len() == 0 {
        assert(a + b =~= a);
    } else {
        lemma_landings_concat(a, b.drop_last());
        assert((a + b).drop_last() =~= a + b.drop_last());
        assert((a + b).last() == b.last());
        assert forall|i: int| #[trigger] landings_at(a + b, i) == landings_at(a, i) + landings_at(
            b,
            i,
        ) by {
            assert(landings_at(a + b.drop_last(), i) == landings_at(a, i) + landings_at(
                b.drop_last(),
                i,
            ));
        }
    }
}

pub(crate) proof fn lemma_landings_at_bound(s: Seq<TurnEvent>, i: int)
    ensures
        landings_at(s, i) <= landings(s),
    decreases s.len(),
{
    if s.len() > 0 {
        lemma_landings_at_bound(s.drop_last(), i);
    }
}

proof fn lemma_chain_rest_append(pos: int, a: Seq<TurnEvent>, b: Seq<TurnEvent>)
    requires
        chain_rest(pos, a) is Some,
    ensures
        chain_rest(pos, a + b) == Some((chain_rest(pos, a).unwrap().0, chain_rest(pos, a).unwrap().1 + b)),
    decreases a.len(),
{
    let ab = a + b;
    assert(ab[0] == a[0]);
    match space_action(pos) {
        SpaceActionEnum::NoAction => {
            assert(ab.drop_first() =~= a.drop_first() + b);
        },
        SpaceActionEnum::MovePlayer(t) => {
            lemma_chain_rest_append(t as int, a.drop_first(), b);
            assert(ab.drop_first() =~= a.drop_first() + b);
        },
        SpaceActionEnum::DrawCard(kind) => {
            assert(ab[1] == a[1]);
            let tail = a.subrange(2, a.len() as int);
            assert(ab.subrange(2, ab.len() as int) =~= tail + b);
            if let TurnEvent::DrewCard(k, card) = a[1] {
                if let Some(t) = effect_target(card.effect(), pos) {
                    lemma_chain_rest_append(t, tail, b);
                }
            }
        },
    }
}

proof fn lemma_roll_rest_append(
    position: int,
    doubles_count: int,
    a: Seq<TurnEvent>,
    b: Seq<TurnEvent>,
)
    requires
        roll_rest(position, doubles_count, a) is Some,
    ensures
        roll_rest(position, doubles_count, a + b) == Some(
            (
                roll_rest(position, doubles_count, a).unwrap().0,
                roll_rest(position, doubles_count, a).unwrap().1 + b,
            ),
        ),
{
    let ab = a + b;
    assert(ab[0] == a[0]);
    if let TurnEvent::Rolled { dice1, dice2, doubles } = a[0] {
        if forced_jail(dice1 as int, dice2 as int, doubles_count) {
            assert(ab[1] == a[1]);
            assert(ab.subrange(2, ab.len() as int) =~= a.subrange(2, a.len() as int) + b);
        } else {
            assert(ab.drop_first() =~= a.drop_first() + b);
            lemma_chain_rest_append(
                roll_landing(position, dice1 as int, dice2 as int, doubles_count),
                a.drop_first(),
                b,
            );
        }
    }
}

pub(crate) proof fn lemma_turn_rest_append(
    position: int,
    doubles_count: int,
    a: Seq<TurnEvent>,
    b: Seq<TurnEvent>,
)
    requires
        turn_rest(position, doubles_count, a) is Some,
    ensures
        turn_rest(position, doubles_count, a + b) == Some(
            (
                turn_rest(position, doubles_count, a).unwrap().0,
                turn_rest(position, doubles_count, a).unwrap().1 + b,
            ),
        ),
    decreases a.len(),
{
    lemma_roll_rest_append(position, doubles_count, a, b);
    let end = roll_rest(position, doubles_count, a).unwrap().0;
    let rest = roll_rest(position, doubles_count, a).unwrap().1;
    assert((a + b)[0] == a[0]);
    if event_rolls_again(a[0], doubles_count) && rest.len() < a.len() {
        lemma_turn_rest_append(end, doubles_count + 1, rest, b);
    }
}

pub(crate) proof fn lemma_total_bump(s: Seq<nat>, i: int)
    requires
        0 <= i < s.len(),
    ensures
        total(s.update(i, s[i] + 1)) == total(s) + 1,
    decreases s.len(),
{
    let u = s.update(i, s[i] + 1);
    if i < s.len() - 1 {
        lemma_total_bump(s.drop_last(), i);
        assert(u.drop_last() =~= s.drop_last().update(i, s[i] + 1));
    } else {
        assert(u.drop_last() =~= s.drop_last());
    }
}

/// Resolves the landing on `pos` and every redirect that it sets off:
/// records each landing, draws a card on each draw space, and follows go
/// to jail and the cards that move the player, until a plain space or a
/// card that leaves the player in place ends the chain. Returns the space
/// the chain ends on.
pub fn resolve_landing(
    pos: u8,
    rng: &mut ThreadRng,
    board: &mut Vec<BoardSpace>,
    card_decks: &mut CardDecks,
    log: &mut Vec<TurnEvent>,
) -> (end: u8)
    requires
        pos < BOARD_SIZE,
        board_wf(old(board)@),
        old(card_decks).wf(),
        forall|i: int|
            0 <= i < BOARD_SIZE ==> #[trigger] counts(old(board)@)[i] + space_rank(pos as int) + 1
                <= u64::MAX,
    ensures
        end < BOARD_SIZE,
        board_wf(final(board)@),
        final(card_decks).wf(),
        extends(old(log)@, final(log)@),
        chain_rest(pos as int, added(old(log)@, final(log)@)) == Some(
            (end as int, Seq::<TurnEvent>::empty()),
        ),
        forall|i: int|
            0 <= i < BOARD_SIZE ==> #[trigger] counts(final(board)@)[i] == counts(old(board)@)[i]
                + landings_at(added(old(log)@, final(log)@), i),
        1 <= landings(added(old(log)@, final(log)@)) <= space_rank(pos as int) + 1,
        total(counts(final(board)@)) == total(counts(old(board)@)) + landings(
            added(old(log)@, final(log)@),
        ),
        added(old(log)@, final(log)@)[0] == TurnEvent::Landed(pos),
        added(old(log)@, final(log)@).last() is Landed || added(old(log)@, final(log)@).last() is DrewCard,
        rolls(added(old(log)@, final(log)@)).len() == 0,
        landings(added(old(log)@, final(log)@)) == 1 + redirects(added(old(log)@, final(log)@)),
        deck_trace(piles(*old(card_decks)), piles(*final(card_decks)), added(old(log)@, final(log)@)),
    decreases space_rank(pos as int),
{
    let ghost log0 = log@;
    let ghost counts0 = counts(board@);
    let ghost decks0 = piles(*card_decks);
    let action = record_landing(board, pos);
    log.push(TurnEvent::Landed(pos));
    let ghost log1 = log@;
    let ghost counts1 = counts(board@);
    proof {
        lemma_total_bump(counts0, pos as int);
        assert(log1.subrange(0, log0.len() as int) =~= log0);
        lemma_deck_trace_quiet(decks0, seq![TurnEvent::Landed(pos)]);
        assert(added(log0, log1) =~= seq![TurnEvent::Landed(pos)]);
        assert(landings(seq![TurnEvent::Landed(pos)]) == 1) by {
            assert(seq![TurnEvent::Landed(pos)].drop_last() =~= Seq::<TurnEvent>::empty());
            assert(landings(Seq::<TurnEvent>::empty()) == 0);
        }
        assert forall|i: int| #[trigger] landings_at(seq![TurnEvent::Landed(pos)], i) == if i
            == pos as int {
            1nat
        } else {
            0nat
        } by {
            assert(seq![TurnEvent::Landed(pos)].drop_last() =~= Seq::<TurnEvent>::empty());
            assert(landings_at(Seq::<TurnEvent>::empty(), i) == 0);
        }
    }
    match action {
        SpaceActionEnum::NoAction => {
            proof {
                assert(added(log0, log1).drop_first() =~= Seq::<TurnEvent>::empty());
                lemma_no_rolls(seq![TurnEvent::Landed(pos)]);
            }
            pos
        },
        SpaceActionEnum::MovePlayer(target) => {
            let end = resolve_landing(target, rng, board, card_decks, log);
            proof {
                lemma_added_chain(log0, log1, log@);
                lemma_landings_concat(added(log0, log1), added(log1, log@));
                lemma_redirects_concat(added(log0, log1), added(log1, log@));
                lemma_rolls_concat(added(log0, log1), added(log1, log@));
                lemma_deck_trace_concat(
                    decks0,
                    decks0,
                    piles(*card_decks),
                    added(log0, log1),
                    added(log1, log@),
                );
                assert(added(log0, log@).drop_first() =~= added(log1, log@));
                lemma_no_rolls(seq![TurnEvent::Landed(pos)]);
            }
            end
        },
        SpaceActionEnum::DrawCard(kind) => {
            let card = card_decks.draw(kind, rng);
            log.push(TurnEvent::DrewCard(kind, card));
            let ghost log2 = log@;
            let ghost step = seq![TurnEvent::Landed(pos), TurnEvent::DrewCard(kind, card)];
            let ghost decks2 = piles(*card_decks);
            proof {
                assert(deck_step(decks0, decks2, kind, card));
                lemma_deck_trace_quiet(decks0, seq![TurnEvent::Landed(pos)]);
                lemma_deck_trace_draw(decks0, decks2, kind, card);
                lemma_deck_trace_concat(
                    decks0,
                    decks0,
                    decks2,
                    seq![TurnEvent::Landed(pos)],
                    seq![TurnEvent::DrewCard(kind, card)],
                );
                assert(seq![TurnEvent::Landed(pos)] + seq![TurnEvent::DrewCard(kind, card)] =~= step);
                assert(added(log0, log2) =~= step);
                assert(log2.subrange(0, log0.len() as int) =~= log0);
                assert(landings(step) == 1) by {
                    assert(step.drop_last() =~= seq![TurnEvent::Landed(pos)]);
                }
                assert forall|i: int| #[trigger] landings_at(step, i) == landings_at(
                    seq![TurnEvent::Landed(pos)],
                    i,
                ) by {
                    assert(step.drop_last() =~= seq![TurnEvent::Landed(pos)]);
                }
            }
            match card.resolve(pos) {
                None => {
                    proof {
                        assert(step.subrange(2, 2) =~= Seq::<TurnEvent>::empty());
                        lemma_no_rolls(step);
                        assert(step.drop_last() =~= seq![TurnEvent::Landed(pos)]);
                    }
                    pos
                },
                Some(target) => {
                    let end = resolve_landing(target, rng, board, card_decks, log);
                    proof {
                        lemma_added_chain(log0, log2, log@);
                        lemma_landings_concat(step, added(log2, log@));
                        let all = added(log0, log@);
                        assert(all.subrange(2, all.len() as int) =~= added(log2, log@));
                        assert(all[0] == TurnEvent::Landed(pos));
                        assert(all[1] == TurnEvent::DrewCard(kind, card));
                        lemma_redirects_concat(step, added(log2, log@));
                        lemma_deck_trace_concat(
                            decks0,
                            decks2,
                            piles(*card_decks),
                            step,
                            added(log2, log@),
                        );
                        lemma_rolls_concat(step, added(log2, log@));
                        lemma_no_rolls(step);
                        assert(step.drop_last() =~= seq![TurnEvent::Landed(pos)]);
                        assert(all.last() == added(log2, log@).last());
                    }
                    end
                },
            }
        },
    }
}

/// One die, uniform over one to six.
fn roll_die(rng: &mut ThreadRng) -> (r: u8)
    ensures
        valid_die(r as int),
{
    let face = random_below(rng, 6);
    (face + 1) as u8
}

/// Plays one roll of the given dice for the player: decides the landing
/// (jail for a third doubles, ending the roll there), resolves the chain of
/// effects from it, moves the player to where the chain ends, and returns
/// what the roll decided.
pub fn resolve_roll(
    player: &mut Player,
    rng: &mut ThreadRng,
    board: &mut Vec<BoardSpace>,
    card_decks: &mut CardDecks,
    dice1: u8,
    dice2: u8,
    doubles_count: u8,
    log: &mut Vec<TurnEvent>,
) -> (r: RollOutcome)
    requires
        old(player).wf(),
        valid_die(dice1 as int),
        valid_die(dice2 as int),
        doubles_count < DOUBLES_LIMIT,
        board_wf(old(board)@),
        old(card_decks).wf(),
        forall|i: int|
            0 <= i < BOARD_SIZE ==> #[trigger] counts(old(board)@)[i] + LANDINGS_PER_ROLL
                <= u64::MAX,
    ensures
        r.landing as int == roll_landing(
            old(player).position(),
            dice1 as int,
            dice2 as int,
            doubles_count as int,
        ),
        r.doubles_count as int == doubles_after(dice1 as int, dice2 as int, doubles_count as int),
        r.roll_again == rolls_again(dice1 as int, dice2 as int, doubles_count as int),
        r.jailed == forced_jail(dice1 as int, dice2 as int, doubles_count as int),
        final(player).wf(),
        final(player).name_view() == old(player).name_view(),
        board_wf(final(board)@),
        final(card_decks).wf(),
        extends(old(log)@, final(log)@),
        added(old(log)@, final(log)@)[0] == (TurnEvent::Rolled {
            dice1,
            dice2,
            doubles: r.doubles_count,
        }),
        roll_rest(old(player).position(), doubles_count as int, added(old(log)@, final(log)@))
            == Some((final(player).position(), Seq::<TurnEvent>::empty())),
        forall|i: int|
            0 <= i < BOARD_SIZE ==> #[trigger] counts(final(board)@)[i] == counts(old(board)@)[i]
                + landings_at(added(old(log)@, final(log)@), i),
        1 <= landings(added(old(log)@, final(log)@)) <= LANDINGS_PER_ROLL,
        total(counts(final(board)@)) == total(counts(old(board)@)) + landings(
            added(old(log)@, final(log)@),
        ),
        rolls(added(old(log)@, final(log)@)) == seq![(dice1, dice2)],
        added(old(log)@, final(log)@).last() is Landed || added(old(log)@, final(log)@).last() is DrewCard,
        landings(added(old(log)@, final(log)@)) == 1 + redirects(added(old(log)@, final(log)@)),
        deck_trace(piles(*old(card_decks)), piles(*final(card_decks)), added(old(log)@, final(log)@)),
{
    let ghost log0 = log@;
    let ghost counts0 = counts(board@);
    let ghost decks0 = piles(*card_decks);
    let outcome = roll_outcome(player.get_current_space(), dice1, dice2, doubles_count);
    let rolled = TurnEvent::Rolled { dice1, dice2, doubles: outcome.doubles_count };
    log.push(rolled);
    let ghost log1 = log@;
    proof {
        assert(log1.subrange(0, log0.len() as int) =~= log0);
        assert(added(log0, log1) =~= seq![rolled]);
        assert(landings(seq![rolled]) == 0) by {
            assert(seq![rolled].drop_last() =~= Seq::<TurnEvent>::empty());
            assert(landings(Seq::<TurnEvent>::empty()) == 0);
        }
        assert forall|i: int| #[trigger] landings_at(seq![rolled], i) == 0 by {
            assert(seq![rolled].drop_last() =~= Seq::<TurnEvent>::empty());
            assert(landings_at(Seq::<TurnEvent>::empty(), i) == 0);
        }
        assert(seq![rolled].drop_first() =~= Seq::<TurnEvent>::empty());
        assert(rolls(Seq::<TurnEvent>::empty()) == Seq::<(u8, u8)>::empty());
        assert(seq![(dice1, dice2)] + Seq::<(u8, u8)>::empty() =~= seq![(dice1, dice2)]);
        assert(rolls(seq![rolled]) =~= seq![(dice1, dice2)]);
        assert(redirects(seq![rolled]) == 0);
        lemma_deck_trace_quiet(decks0, seq![rolled]);
    }
    let end = if outcome.jailed {
        assert(counts(board@)[JAIL as int] == board@[JAIL as int].count());
        record_landing(board, JAIL);
        log.push(TurnEvent::Landed(JAIL));
        proof {
            let step = seq![rolled, TurnEvent::Landed(JAIL)];
            lemma_total_bump(counts0, JAIL as int);
            assert(log@.subrange(0, log0.len() as int) =~= log0);
            assert(added(log0, log@) =~= step);
            assert(step.drop_last() =~= seq![rolled]);
            assert(step.subrange(2, 2) =~= Seq::<TurnEvent>::empty());
            assert forall|i: int| #[trigger] landings_at(step, i) == if i == JAIL as int {
                1nat
            } else {
                0nat
            } by {
                assert(landings_at(seq![rolled], i) == 0);
            }
            assert(landings(step) == 1);
            lemma_no_rolls(seq![TurnEvent::Landed(JAIL)]);
            lemma_rolls_concat(seq![rolled], seq![TurnEvent::Landed(JAIL)]);
            assert(step =~= seq![rolled] + seq![TurnEvent::Landed(JAIL)]);
            assert(rolls(seq![rolled]) + Seq::<(u8, u8)>::empty() =~= seq![(dice1, dice2)]);
            assert(redirects(step) == 0);
            lemma_deck_trace_quiet(decks0, step);
        }
        JAIL
    } else {
        let end = resolve_landing(outcome.landing, rng, board, card_decks, log);
        proof {
            lemma_added_chain(log0, log1, log@);
            lemma_landings_concat(seq![rolled], added(log1, log@));
            lemma_rolls_concat(seq![rolled], added(log1, log@));
            lemma_redirects_concat(seq![rolled], added(log1, log@));
            lemma_deck_trace_concat(decks0, decks0, piles(*card_decks), seq![rolled], added(log1, log@));
            assert(added(log0, log@).drop_first() =~= added(log1, log@));
            assert(seq![(dice1, dice2)] + Seq::<(u8, u8)>::empty() =~= seq![(dice1, dice2)]);
            assert(added(log0, log@).last() == added(log1, log@).last());
        }
        end
    };
    player.set_current_space(end);
    outcome
}

/// Plays a whole turn slot for the player: rolls two dice and resolves the
/// roll, and rolls again for as long as doubles earn another roll.
/// `doubles_count` is how many doubles in a row came before (0 for a fresh
/// turn).
pub fn take_player_turn(
    player: &mut Player,
    rng: &mut ThreadRng,
    board: &mut Vec<BoardSpace>,
    card_decks: &mut CardDecks,
    doubles_count: u8,
    log: &mut Vec<TurnEvent>,
)
    requires
        old(player).wf(),
        doubles_count < DOUBLES_LIMIT,
        board_wf(old(board)@),
        old(card_decks).wf(),
        forall|i: int|
            0 <= i < BOARD_SIZE ==> #[trigger] counts(old(board)@)[i] + LANDINGS_PER_ROLL * (
            DOUBLES_LIMIT - doubles_count) <= u64::MAX,
    ensures
        final(player).wf(),
        final(player).name_view() == old(player).name_view(),
        board_wf(final(board)@),
        final(card_decks).wf(),
        extends(old(log)@, final(log)@),
        turn_rest(old(player).position(), doubles_count as int, added(old(log)@, final(log)@))
            == Some((final(player).position(), Seq::<TurnEvent>::empty())),
        forall|i: int|
            0 <= i < BOARD_SIZE ==> #[trigger] counts(final(board)@)[i] == counts(old(board)@)[i]
                + landings_at(added(old(log)@, final(log)@), i),
        1 <= landings(added(old(log)@, final(log)@)) <= LANDINGS_PER_ROLL * (DOUBLES_LIMIT
            - doubles_count),
        total(counts(final(board)@)) == total(counts(old(board)@)) + landings(
            added(old(log)@, final(log)@),
        ),
        added(old(log)@, final(log)@)[0] is Rolled,
        added(old(log)@, final(log)@).last() is Landed || added(old(log)@, final(log)@).last() is DrewCard,
        rolls(added(old(log)@, final(log)@)).len() >= 1,
        landings(added(old(log)@, final(log)@)) == rolls(added(old(log)@, final(log)@)).len()
            + redirects(added(old(log)@, final(log)@)),
        landings(added(old(log)@, final(log)@)) <= LANDINGS_PER_ROLL * rolls(
            added(old(log)@, final(log)@),
        ).len(),
        deck_trace(piles(*old(card_decks)), piles(*final(card_decks)), added(old(log)@, final(log)@)),
    decreases DOUBLES_LIMIT - doubles_count,
{
    let ghost log0 = log@;
    let ghost decks0 = piles(*card_decks);
    let ghost start = player.position();
    let dice1 = roll_die(rng);
    let dice2 = roll_die(rng);
    let outcome = resolve_roll(player, rng, board, card_decks, dice1, dice2, doubles_count, log);
    let ghost log1 = log@;
    let ghost decks1 = piles(*card_decks);
    proof {
        let a = added(log0, log1);
        lemma_roll_rest_append(start, doubles_count as int, a, Seq::<TurnEvent>::empty());
        assert(a + Seq::<TurnEvent>::empty() =~= a);
        assert forall|i: int| 0 <= i < BOARD_SIZE implies #[trigger] counts(board@)[i]
            + LANDINGS_PER_ROLL * (DOUBLES_LIMIT - doubles_count - 1) <= u64::MAX by {
            lemma_landings_at_bound(a, i);
        }
    }
    proof {
        assert(event_rolls_again(added(log0, log1)[0], doubles_count as int) == outcome.roll_again);
    }
    if outcome.roll_again {
        take_player_turn(player, rng, board, card_decks, outcome.doubles_count, log);
        proof {
            let a = added(log0, log1);
            let b = added(log1, log@);
            lemma_added_chain(log0, log1, log@);
            lemma_landings_concat(a, b);
            lemma_roll_rest_append(start, doubles_count as int, a, b);
            assert(a + b == added(log0, log@));
            assert((a + b)[0] == a[0]);
            assert(a.len() > 0);
            assert(b.len() < (a + b).len());
            lemma_rolls_concat(a, b);
            lemma_redirects_concat(a, b);
            lemma_deck_trace_concat(decks0, decks1, piles(*card_decks), a, b);
            assert((a + b).last() == b.last());
            assert(Seq::<TurnEvent>::empty() + b =~= b);
        }
    }
}

proof fn lemma_chain_rest_shape(pos: int, events: Seq<TurnEvent>)
    requires
        chain_rest(pos, events) is Some,
    ensures
        rolls(events) == rolls(chain_rest(pos, events).unwrap().1),
        chain_rest(pos, events).unwrap().1 == events.skip(
            events.len() - chain_rest(pos, events).unwrap().1.len(),
        ),
        chain_rest(pos, events).unwrap().1.len() < events.len(),
    decreases events.len(),
{
    let tail = events.subrange(2, events.len() as int);
    match space_action(pos) {
        SpaceActionEnum::NoAction => {
            assert(events.drop_first() =~= events.skip(1));
        },
        SpaceActionEnum::MovePlayer(t) => {
            lemma_chain_rest_shape(t as int, events.drop_first());
            let rest = chain_rest(pos, events).unwrap().1;
            assert(events.drop_first().skip(events.len() - 1 - rest.len()) =~= events.skip(
                events.len() - rest.len(),
            ));
        },
        SpaceActionEnum::DrawCard(kind) => {
            assert(rolls(events) == rolls(events.drop_first()));
            assert(events.drop_first().drop_first() =~= tail);
            assert(rolls(events.drop_first()) == rolls(tail));
            if let TurnEvent::DrewCard(k, card) = events[1] {
                if let Some(t) = effect_target(card.effect(), pos) {
                    lemma_chain_rest_shape(t, tail);
                    let rest = chain_rest(pos, events).unwrap().1;
                    assert(tail.skip(tail.len() - rest.len()) =~= events.skip(
                        events.len() - rest.len(),
                    ));
                } else {
                    assert(tail =~= events.skip(2));
                }
            }
        },
    }
}

proof fn lemma_roll_rest_shape(position: int, doubles_count: int, events: Seq<TurnEvent>)
    requires
        roll_rest(position, doubles_count, events) is Some,
    ensures
        events[0] is Rolled,
        rolls(events) == seq![(events[0]->dice1, events[0]->dice2)] + rolls(
            roll_rest(position, doubles_count, events).unwrap().1,
        ),
        roll_rest(position, doubles_count, events).unwrap().1 == events.skip(
            events.len() - roll_rest(position, doubles_count, events).unwrap().1.len(),
        ),
        roll_rest(position, doubles_count, events).unwrap().1.len() < events.len(),
{
    if let TurnEvent::Rolled { dice1, dice2, doubles } = events[0] {
        if forced_jail(dice1 as int, dice2 as int, doubles_count) {
            let tail = events.subrange(2, events.len() as int);
            assert(events.drop_first().drop_first() =~= tail);
            assert(rolls(events.drop_first()) == rolls(tail));
            assert(tail =~= events.skip(2));
        } else {
            let landing = roll_landing(position, dice1 as int, dice2 as int, doubles_count);
            lemma_chain_rest_shape(landing, events.drop_first());
            let rest = chain_rest(landing, events.drop_first()).unwrap().1;
            assert(events.drop_first().skip(events.len() - 1 - rest.len()) =~= events.skip(
                events.len() - rest.len(),
            ));
        }
    }
}

/// A turn slot goes on exactly as long as doubles earn another roll: there
/// are one to three rolls (fewer when doubles came before), every roll but
/// the last is doubles, and the last is not doubles unless it is the third
/// doubles in a row. A third doubles ends the turn on jail, with nothing
/// after its roll but the jail landing: no card is drawn.
pub proof fn lemma_turn_rolls(position: int, doubles_count: int, events: Seq<TurnEvent>)
    requires
        0 <= doubles_count < DOUBLES_LIMIT,
        turn_rest(position, doubles_count, events) is Some,
        turn_rest(position, doubles_count, events).unwrap().1.len() == 0,
    ensures
        1 <= rolls(events).len() <= DOUBLES_LIMIT - doubles_count,
        forall|j: int|
            0 <= j < rolls(events).len() - 1 ==> (#[trigger] rolls(events)[j]).0 == rolls(
                events,
            )[j].1,
        rolls(events).last().0 != rolls(events).last().1 || doubles_count + rolls(events).len()
            == DOUBLES_LIMIT,
        rolls(events).last().0 == rolls(events).last().1 && doubles_count + rolls(events).len()
            == DOUBLES_LIMIT ==> {
            &&& turn_rest(position, doubles_count, events).unwrap().0 == JAIL
            &&& events.len() >= 2
            &&& events.last() == TurnEvent::Landed(JAIL)
            &&& events[events.len() - 2] is Rolled
        },
    decreases events.len(),
{
    lemma_roll_rest_shape(position, doubles_count, events);
    let end = roll_rest(position, doubles_count, events).unwrap().0;
    let rest = roll_rest(position, doubles_count, events).unwrap().1;
    let first = (events[0]->dice1, events[0]->dice2);
    if event_rolls_again(events[0], doubles_count) {
        lemma_turn_rolls(end, doubles_count + 1, rest);
        let r = rolls(rest);
        assert(rolls(events) == seq![first] + r);
        assert forall|j: int| 0 <= j < rolls(events).len() - 1 implies (#[trigger] rolls(
            events,
        )[j]).0 == rolls(events)[j].1 by {
            if j > 0 {
                assert(rolls(events)[j] == r[j - 1]);
            }
        }
        assert(rolls(events).last() == r.last());
        assert(events.last() == rest.last());
        assert(events[events.len() - 2] == rest[rest.len() - 2]);
    } else {
        assert(rest.len() == 0);
        assert(rolls(rest) =~= Seq::<(u8, u8)>::empty());
        assert(rolls(events) =~= seq![first]);
    }
}

/// How a drawn card steers a landing chain on a draw space: a card that
/// leaves the player in place ends the chain there, right after the draw;
/// a card that moves the player onto another draw space is followed, in
/// the same chain, by the landing there and a draw from that space's deck.
pub proof fn lemma_chain_cards(pos: int, events: Seq<TurnEvent>)
    requires
        chain_rest(pos, events) is Some,
        space_action(pos) is DrawCard,
    ensures
        events.len() >= 2,
        events[1] is DrewCard,
        events[1]->DrewCard_0 == space_action(pos)->DrawCard_0,
        effect_target(events[1]->DrewCard_1.effect(), pos) is None ==> chain_rest(pos, events)
            == Some((pos, events.skip(2))),
        effect_target(events[1]->DrewCard_1.effect(), pos) is Some && space_action(
            effect_target(events[1]->DrewCard_1.effect(), pos).unwrap(),
        ) is DrawCard ==> {
            let t = effect_target(events[1]->DrewCard_1.effect(), pos).unwrap();
            &&& events.len() >= 4
            &&& events[2] == TurnEvent::Landed(t as u8)
            &&& events[3] is DrewCard
            &&& events[3]->DrewCard_0 == space_action(t)->DrawCard_0
        },
{
    let tail = events.subrange(2, events.len() as int);
    assert(tail =~= events.skip(2));
    if let Some(t) = effect_target(events[1]->DrewCard_1.effect(), pos) {
        if space_action(t) is DrawCard {
            assert(chain_rest(t, tail) is Some);
            assert(tail.len() >= 2 && tail[0] == TurnEvent::Landed(t as u8));
            assert(tail[1] is DrewCard && tail[1]->DrewCard_0 == space_action(t)->DrawCard_0);
            assert(tail[0] == events[2]);
            assert(tail[1] == events[3]);
        }
    }
}

} // verus!
