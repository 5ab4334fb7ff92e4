use std::collections::VecDeque;
use vstd::prelude::*;
use vstd::multiset::Multiset;
use vstd::seq_lib::{group_to_multiset_ensures, to_multiset_update};
use crate::board::{space_rank, CardDeckEnum, BOARD_SIZE, JAIL};
use crate::random::random_below;
use rand::rngs::ThreadRng;

verus! {

broadcast use vstd::multiset::group_multiset_axioms;

/// The number of cards in each deck.
pub const DECK_SIZE: usize = 16;

/// Where a drawn card sends the player.
#[derive(Clone, Copy, Debug, PartialEq, Eq, Structural)]
pub enum CardEffect {
    /// The player stays where the card was drawn.
    Stay,
    /// The player advances to the given space.
    MoveTo(u8),
    /// The player advances to the railroad that comes next after a chance space.
    NearestRailroad,
    /// The player advances to the utility that comes next after a chance space.
    NearestUtility,
    /// The player goes back the given number of spaces, around the board if need be.
    MoveBack(u8),
}

/// The space a card effect sends a player to from the space the card was
/// drawn on, or `None` where the player stays.
pub open spec fn effect_target(effect: CardEffect, landed: int) -> Option<int> {
    match effect {
        CardEffect::Stay => None,
        CardEffect::MoveTo(t) => Some(t as int),
        CardEffect::NearestRailroad => {
            if landed == 7 {
                Some(15)
            } else if landed == 22 {
                Some(25)
            } else if landed == 36 {
                Some(5)
            } else {
                None
            }
        },
        CardEffect::NearestUtility => {
            if landed == 7 || landed == 36 {
                Some(12)
            } else if landed == 22 {
                Some(28)
            } else {
                None
            }
        },
        CardEffect::MoveBack(n) => Some((landed - n) % (BOARD_SIZE as int)),
    }
}

impl CardEffect {
    /// The space this effect sends a player to from `landed`, or `None`
    /// where the player stays.
    pub fn target(self, landed: u8) -> (r: Option<u8>)
        requires
            landed < BOARD_SIZE,
        ensures
            r matches Some(t) ==> effect_target(self, landed as int) == Some(t as int),
            r is None ==> effect_target(self, landed as int) is None,
    {
        match self {
            CardEffect::Stay => None,
            CardEffect::MoveTo(t) => Some(t),
            CardEffect::NearestRailroad => {
                if landed == 7 {
                    Some(15)
                } else if landed == 22 {
                    Some(25)
                } else if landed == 36 {
                    Some(5)
                } else {
                    None
                }
            },
            CardEffect::NearestUtility => {
                if landed == 7 || landed == 36 {
                    Some(12)
                } else if landed == 22 {
                    Some(28)
                } else {
                    None
                }
            },
            CardEffect::MoveBack(n) => {
                let back = n % BOARD_SIZE;
                if landed >= back {
                    Some(landed - back)
                } else {
                    Some(landed + BOARD_SIZE - back)
                }
            },
        }
    }
}

/// A chance or community chest card: its text, which is only read, and
/// where it sends the player.
#[derive(Clone, Copy, Debug, PartialEq, Eq)]
pub struct GameActionCard {
    text: &'static str,
    move_action: CardEffect,
}

impl GameActionCard {
    pub closed spec fn effect(&self) -> CardEffect {
        self.move_action
    }

    pub closed spec fn text_view(&self) -> Seq<char> {
        self.text@
    }

    pub fn get_card_text(&self) -> (r: &str)
        ensures
            r@ == self.text_view(),
    {
        self.text
    }

    pub fn get_move_action(&self) -> (r: CardEffect)
        ensures
            r == self.effect(),
    {
        self.move_action
    }

    /// The space this card sends a player to who drew it on `landed`, or
    /// `None` where the player stays.
    pub fn resolve(&self, landed: u8) -> (r: Option<u8>)
        requires
            landed < BOARD_SIZE,
        ensures
            r matches Some(t) ==> effect_target(self.effect(), landed as int) == Some(t as int),
            r is None ==> effect_target(self.effect(), landed as int) is None,
    {
        self.move_action.target(landed)
    }
}

/// A card drawn on `landed` either leaves the player there or sends the
/// player to a space of the board that sets off fewer further landings.
pub open spec fn lands_lower(card: GameActionCard, landed: int) -> bool {
    match effect_target(card.effect(), landed) {
        None => true,
        Some(t) => 0 <= t < BOARD_SIZE && space_rank(t) < space_rank(landed),
    }
}

/// A card fits a deck when it lands lower from each space that draws from
/// that deck; no chain of draws and redirects can then go on forever.
pub open spec fn fits_deck(card: GameActionCard, kind: CardDeckEnum) -> bool {
    match kind {
        CardDeckEnum::Chance => lands_lower(card, 7) && lands_lower(card, 22) && lands_lower(
            card,
            36,
        ),
        CardDeckEnum::CommunityChest => lands_lower(card, 2) && lands_lower(card, 17)
            && lands_lower(card, 33),
    }
}

/// Every one of the cards fits a deck of the given kind.
pub open spec fn all_fit(cards: Seq<GameActionCard>, kind: CardDeckEnum) -> bool {
    forall|i: int| 0 <= i < cards.len() ==> fits_deck(#[trigger] cards[i], kind)
}

/// The state of a deck: the draw pile, front first, and the discard pile.
pub struct DeckState {
    pub draw: Seq<GameActionCard>,
    pub discard: Seq<GameActionCard>,
}

impl DeckState {
    /// Every card of the deck, wherever it lies.
    pub open spec fn cards(self) -> Seq<GameActionCard> {
        self.draw + self.discard
    }
}

/// Drawing from a non-empty draw pile: its front card goes to the discard pile.
pub open spec fn draw_step(d: DeckState) -> DeckState {
    DeckState { draw: d.draw.drop_first(), discard: d.discard.push(d.draw[0]) }
}

/// Picks for shuffling `n` cards: the `j`-th pick indexes the `n - j` cards
/// still left.
pub open spec fn picks_valid(n: nat, picks: Seq<usize>) -> bool {
    &&& picks.len() == n
    &&& forall|j: int| 0 <= j < n ==> #[trigger] picks[j] < n - j
}

/// The order in which the picks take the cards: each pick removes the card
/// it indexes, the last card taking its place, and the cards come out in
/// the order picked.
pub open spec fn shuffle_by(cards: Seq<GameActionCard>, picks: Seq<usize>) -> Seq<GameActionCard>
    decreases picks.len(),
{
    if picks.len() == 0 || cards.len() == 0 {
        Seq::empty()
    } else {
        let i = picks[0] as int;
        seq![cards[i]] + shuffle_by(cards.update(i, cards.last()).drop_last(), picks.drop_first())
    }
}

/// The deck after the whole discard pile is shuffled into the empty draw pile.
pub open spec fn refilled(d: DeckState, picks: Seq<usize>) -> DeckState {
    DeckState { draw: shuffle_by(d.discard, picks), discard: Seq::empty() }
}

/// `after` is `before` with one card drawn, `card`: from the front of the
/// draw pile, or, where that pile was empty, after shuffling the whole
/// discard pile into it in some order.
pub open spec fn draws(before: DeckState, after: DeckState, card: GameActionCard) -> bool {
    if before.draw.len() > 0 {
        after == draw_step(before) && card == before.draw[0]
    } else {
        exists|picks: Seq<usize>|
            {
                &&& #[trigger] picks_valid(before.discard.len(), picks)
                &&& after == draw_step(refilled(before, picks))
                &&& card == refilled(before, picks).draw[0]
            }
    }
}

/// A shuffle takes each card exactly once.
pub proof fn lemma_shuffle_permutes(cards: Seq<GameActionCard>, picks: Seq<usize>)
    requires
        picks_valid(cards.len(), picks),
    ensures
        shuffle_by(cards, picks).len() == cards.len(),
        shuffle_by(cards, picks).to_multiset() == cards.to_multiset(),
    decreases picks.len(),
{
    broadcast use group_to_multiset_ensures;

    if picks.len() > 0 {
        let i = picks[0] as int;
        let rest = cards.update(i, cards.last()).drop_last();
        assert(picks_valid(rest.len(), picks.drop_first())) by {
            assert forall|j: int| 0 <= j < rest.len() implies #[trigger] picks.drop_first()[j]
                < rest.len() - j by {
                assert(picks[j + 1] < cards.len() - (j + 1));
            }
        }
        lemma_shuffle_permutes(rest, picks.drop_first());
        let u = cards.update(i, cards.last());
        to_multiset_update(cards, i, cards.last());
        assert(u =~= rest.push(cards.last()));
        vstd::seq_lib::lemma_multiset_commutative(seq![cards[i]], shuffle_by(rest, picks.drop_first()));
        assert(seq![cards[i]].to_multiset() =~= Multiset::empty().insert(cards[i])) by {
            assert(seq![cards[i]] =~= Seq::<GameActionCard>::empty().push(cards[i]));
        }
        assert(shuffle_by(cards, picks) == seq![cards[i]] + shuffle_by(rest, picks.drop_first()));
        assert(cards.contains(cards[i]));
        assert(cards.to_multiset().count(cards[i]) > 0);
        assert(u.to_multiset() == rest.to_multiset().insert(cards.last()));
        assert forall|x: GameActionCard| #[trigger] shuffle_by(cards, picks).to_multiset().count(x)
            == cards.to_multiset().count(x) by {
            assert(u.to_multiset().count(x) == rest.to_multiset().count(x) + if x == cards.last() {
                1int
            } else {
                0int
            });
        }
        assert(shuffle_by(cards, picks).to_multiset() =~= cards.to_multiset());
    } else {
        assert(cards.len() == 0);
        assert(cards =~= Seq::<GameActionCard>::empty());
    }
}

/// `n` picks drawn from the generator, each within its bound.
fn random_picks(rng: &mut ThreadRng, n: usize) -> (picks: Vec<usize>)
    ensures
        picks_valid(n as nat, picks@),
{
    let mut picks: Vec<usize> = Vec::with_capacity(n);
    let mut k: usize = 0;
    while k < n
        invariant
            k <= n,
            picks@.len() == k,
            forall|j: int| 0 <= j < k ==> #[trigger] picks@[j] < n - j,
        decreases n - k,
    {
        let p = random_below(rng, n - k);
        picks.push(p);
        k = k + 1;
    }
    picks
}

/// A deck drawn without replacement: drawn cards go to the discard pile,
/// and only once the draw pile is empty is the whole discard pile shuffled
/// back into it.
pub struct GameActionCardDeck {
    deck: VecDeque<GameActionCard>,
    dealt: Vec<GameActionCard>,
}

impl View for GameActionCardDeck {
    type V = DeckState;

    closed spec fn view(&self) -> DeckState {
        DeckState { draw: self.deck@, discard: self.dealt@ }
    }
}

impl GameActionCardDeck {
    /// A deck holds the same number of cards at all times.
    pub open spec fn wf(&self) -> bool {
        self@.draw.len() + self@.discard.len() == DECK_SIZE
    }

    /// Every card of the deck fits a deck of the given kind.
    pub open spec fn holds_only(&self, kind: CardDeckEnum) -> bool {
        all_fit(self@.draw, kind) && all_fit(self@.discard, kind)
    }

    pub fn draw_pile_len(&self) -> (r: usize)
        ensures
            r == self@.draw.len(),
    {
        self.deck.len()
    }

    pub fn discard_pile_len(&self) -> (r: usize)
        ensures
            r == self@.discard.len(),
    {
        self.dealt.len()
    }

    /// A deck whose cards all start in the discard pile; the first draw
    /// shuffles them.
    fn new(cards: Vec<GameActionCard>) -> (d: Self)
        requires
            cards@.len() == DECK_SIZE,
        ensures
            d@ == (DeckState { draw: Seq::empty(), discard: cards@ }),
            d.wf(),
    {
        GameActionCardDeck { deck: VecDeque::with_capacity(DECK_SIZE), dealt: cards }
    }

    /// Shuffles the whole discard pile into the empty draw pile, in the
    /// order that the picks give.
    pub fn refill(&mut self, picks: &Vec<usize>)
        requires
            old(self)@.draw.len() == 0,
            picks_valid(old(self)@.discard.len(), picks@),
        ensures
            final(self)@ == refilled(old(self)@, picks@),
            final(self)@.draw.to_multiset() == old(self)@.discard.to_multiset(),
            old(self).wf() ==> final(self).wf(),
            forall|kind: CardDeckEnum| #[trigger]
                old(self).holds_only(kind) ==> final(self).holds_only(kind),
    {
        let ghost start = self@.discard;
        let n = self.dealt.len();
        let mut k: usize = 0;
        proof {
            assert(picks@.subrange(0, n as int) =~= picks@);
        }
        while k < n
            invariant
                n == start.len(),
                k <= n,
                picks_valid(n as nat, picks@),
                self.dealt@.len() == n - k,
                self.deck@ + shuffle_by(self.dealt@, picks@.subrange(k as int, n as int))
                    == shuffle_by(start, picks@),
                forall|kind: CardDeckEnum| #[trigger]
                    all_fit(start, kind) ==> all_fit(self.deck@, kind) && all_fit(
                        self.dealt@,
                        kind,
                    ),
            decreases n - k,
        {
            let ghost before = self.deck@;
            let ghost dealt = self.dealt@;
            let ghost rest = picks@.subrange(k as int, n as int);
            assert(picks@[k as int] < n - k);
            let card = self.dealt.swap_remove(picks[k]);
            self.deck.push_back(card);
            k = k + 1;
            proof {
                assert(rest.drop_first() =~= picks@.subrange(k as int, n as int));
                assert(shuffle_by(dealt, rest) == seq![card] + shuffle_by(self.dealt@, rest.drop_first()));
                assert(self.deck@ + shuffle_by(self.dealt@, picks@.subrange(k as int, n as int))
                    =~= before + shuffle_by(dealt, rest));
            }
        }
        proof {
            assert(picks@.subrange(n as int, n as int).len() == 0);
            assert(self.deck@ + Seq::<GameActionCard>::empty() =~= self.deck@);
            lemma_shuffle_permutes(start, picks@);
            assert(self.dealt@ =~= Seq::<GameActionCard>::empty());
        }
    }

    /// Draws the front card of the draw pile into the discard pile, first
    /// shuffling the discard pile into the draw pile where that is empty,
    /// and returns the card drawn.
    pub fn draw_card(&mut self, rng: &mut ThreadRng) -> (r: Option<&GameActionCard>)
        requires
            old(self).wf(),
        ensures
            final(self).wf(),
            r matches Some(c) && draws(old(self)@, final(self)@, *c),
            forall|kind: CardDeckEnum| #[trigger]
                old(self).holds_only(kind) ==> final(self).holds_only(kind),
    {
        let ghost start = self@;
        if self.deck.len() == 0 {
            let picks = random_picks(rng, self.dealt.len());
            self.refill(&picks);
            proof {
                lemma_shuffle_permutes(start.discard, picks@);
            }
        }
        let ghost filled = self@;
        let next = self.deck.pop_front();
        match next {
            Some(card) => {
                self.dealt.push(card);
                proof {
                    assert(self@ =~= draw_step(filled));
                }
                self.dealt.last()
            },
            None => None,
        }
    }
}

/// Where the chance cards send a player, in the order the deck is built.
pub open spec fn chance_effects() -> Seq<CardEffect> {
    seq![
        CardEffect::MoveTo(39),
        CardEffect::MoveTo(0),
        CardEffect::MoveTo(24),
        CardEffect::MoveTo(11),
        CardEffect::NearestRailroad,
        CardEffect::NearestRailroad,
        CardEffect::NearestUtility,
        CardEffect::Stay,
        CardEffect::Stay,
        CardEffect::MoveBack(3),
        CardEffect::MoveTo(JAIL),
        CardEffect::Stay,
        CardEffect::Stay,
        CardEffect::MoveTo(5),
        CardEffect::Stay,
        CardEffect::Stay,
    ]
}

/// Where the community chest cards send a player, in the order the deck is built.
pub open spec fn community_chest_effects() -> Seq<CardEffect> {
    seq![
        CardEffect::MoveTo(0),
        CardEffect::Stay,
        CardEffect::Stay,
        CardEffect::Stay,
        CardEffect::Stay,
        CardEffect::MoveTo(JAIL),
        CardEffect::Stay,
        CardEffect::Stay,
        CardEffect::Stay,
        CardEffect::Stay,
        CardEffect::Stay,
        CardEffect::Stay,
        CardEffect::Stay,
        CardEffect::Stay,
        CardEffect::Stay,
        CardEffect::Stay,
    ]
}

pub open spec fn effects(cards: Seq<GameActionCard>) -> Seq<CardEffect> {
    cards.map_values(|c: GameActionCard| c.effect())
}

/// The texts of the chance cards, in the order the deck is built.
pub open spec fn chance_texts() -> Seq<Seq<char>> {
    seq![
        "Advance to Boardwalk"@,
        "Advance to Go (Collect $200)"@,
        "Advance to Illinois Avenue. If you pass Go, collect $200"@,
        "Advance to St. Charles Place. If you pass Go, collect $200"@,
        "Advance to the nearest Railroad. If unowned, you may buy it from the Bank. If owned, pay owner twice the rental to which they are otherwise entitled"@,
        "Advance to the nearest Railroad. If unowned, you may buy it from the Bank. If owned, pay owner twice the rental to which they are otherwise entitled"@,
        "Advance token to nearest Utility. If unowned, you may buy it from the Bank. If owned, throw dice and pay owner a total ten times amount thrown."@,
        "Bank pays you dividend of $50"@,
        "Get Out of Jail Free"@,
        "Go Back 3 Spaces"@,
        "Go to Jail. Go directly to jail, do not pass Go, do not collect $200"@,
        "Make general repairs on all your property. For each house pay $25. For each hotel pay $100"@,
        "Speeding fine $15"@,
        "Take a trip to Reading Railroad. If you pass Go, collect $200"@,
        "You have been elected Chairman of the Board. Pay each player $50"@,
        "Your building loan matures. Collect $150"@,
    ]
}

/// The texts of the community chest cards, in the order the deck is built.
pub open spec fn community_chest_texts() -> Seq<Seq<char>> {
    seq![
        "Advance to GO"@,
        "Bank error in your favor. Collect $200"@,
        "Doctor’s fee. Pay $50"@,
        "From sale of stock you get $50"@,
        "Get Out of Jail Free"@,
        "Go to Jail. Go directly to jail, do not pass Go, do not collect $200"@,
        "Holiday fund matures. Receive $100"@,
        "Income tax refund. Collect $20"@,
        "It is your birthday. Collect $10 from every player"@,
        "Life insurance matures. Collect $100"@,
        "Pay hospital fees of $100"@,
        "Pay school fees of $50"@,
        "Receive $25 consultancy fee"@,
        "You are assessed for street repair. $40 per house. $115 per hotel"@,
        "You have won second prize in a beauty contest. Collect $10"@,
        "You inherit $100"@,
    ]
}

pub open spec fn texts(cards: Seq<GameActionCard>) -> Seq<Seq<char>> {
    cards.map_values(|c: GameActionCard| c.text_view())
}

/// The community chest deck, every card in its discard pile.
pub fn init_community_chest() -> (d: GameActionCardDeck)
    ensures
        d.wf(),
        d@.draw.len() == 0,
        effects(d@.discard) == community_chest_effects(),
        texts(d@.discard) == community_chest_texts(),
        d.holds_only(CardDeckEnum::CommunityChest),
{
    let mut cards: Vec<GameActionCard> = Vec::with_capacity(DECK_SIZE);
    cards.push(GameActionCard { text: "Advance to GO", move_action: CardEffect::MoveTo(0) });
    cards.push(GameActionCard { text: "Bank error in your favor. Collect $200", move_action: CardEffect::Stay });
    cards.push(GameActionCard { text: "Doctor’s fee. Pay $50", move_action: CardEffect::Stay });
    cards.push(GameActionCard { text: "From sale of stock you get $50", move_action: CardEffect::Stay });
    cards.push(GameActionCard { text: "Get Out of Jail Free", move_action: CardEffect::Stay });
    cards.push(GameActionCard { text: "Go to Jail. Go directly to jail, do not pass Go, do not collect $200", move_action: CardEffect::MoveTo(JAIL) });
    cards.push(GameActionCard { text: "Holiday fund matures. Receive $100", move_action: CardEffect::Stay });
    cards.push(GameActionCard { text: "Income tax refund. Collect $20", move_action: CardEffect::Stay });
    cards.push(GameActionCard { text: "It is your birthday. Collect $10 from every player", move_action: CardEffect::Stay });
    cards.push(GameActionCard { text: "Life insurance matures. Collect $100", move_action: CardEffect::Stay });
    cards.push(GameActionCard { text: "Pay hospital fees of $100", move_action: CardEffect::Stay });
    cards.push(GameActionCard { text: "Pay school fees of $50", move_action: CardEffect::Stay });
    cards.push(GameActionCard { text: "Receive $25 consultancy fee", move_action: CardEffect::Stay });
    cards.push(GameActionCard { text: "You are assessed for street repair. $40 per house. $115 per hotel", move_action: CardEffect::Stay });
    cards.push(GameActionCard { text: "You have won second prize in a beauty contest. Collect $10", move_action: CardEffect::Stay });
    cards.push(GameActionCard { text: "You inherit $100", move_action: CardEffect::Stay });
    proof {
        assert(effects(cards@) =~= community_chest_effects());
        assert(texts(cards@) =~= community_chest_texts());
    }
    GameActionCardDeck::new(cards)
}

/// The chance deck, every card in its discard pile.
pub fn init_chance() -> (d: GameActionCardDeck)
    ensures
        d.wf(),
        d@.draw.len() == 0,
        effects(d@.discard) == chance_effects(),
        texts(d@.discard) == chance_texts(),
        d.holds_only(CardDeckEnum::Chance),
{
    let mut cards: Vec<GameActionCard> = Vec::with_capacity(DECK_SIZE);
    cards.push(GameActionCard { text: "Advance to Boardwalk", move_action: CardEffect::MoveTo(39) });
    cards.push(GameActionCard { text: "Advance to Go (Collect $200)", move_action: CardEffect::MoveTo(0) });
    cards.push(GameActionCard { text: "Advance to Illinois Avenue. If you pass Go, collect $200", move_action: CardEffect::MoveTo(24) });
    cards.push(GameActionCard { text: "Advance to St. Charles Place. If you pass Go, collect $200", move_action: CardEffect::MoveTo(11) });
    cards.push(GameActionCard { text: "Advance to the nearest Railroad. If unowned, you may buy it from the Bank. If owned, pay owner twice the rental to which they are otherwise entitled", move_action: CardEffect::NearestRailroad });
    cards.push(GameActionCard { text: "Advance to the nearest Railroad. If unowned, you may buy it from the Bank. If owned, pay owner twice the rental to which they are otherwise entitled", move_action: CardEffect::NearestRailroad });
    cards.push(GameActionCard { text: "Advance token to nearest Utility. If unowned, you may buy it from the Bank. If owned, throw dice and pay owner a total ten times amount thrown.", move_action: CardEffect::NearestUtility });
    cards.push(GameActionCard { text: "Bank pays you dividend of $50", move_action: CardEffect::Stay });
    cards.push(GameActionCard { text: "Get Out of Jail Free", move_action: CardEffect::Stay });
    cards.push(GameActionCard { text: "Go Back 3 Spaces", move_action: CardEffect::MoveBack(3) });
    cards.push(GameActionCard { text: "Go to Jail. Go directly to jail, do not pass Go, do not collect $200", move_action: CardEffect::MoveTo(JAIL) });
    cards.push(GameActionCard { text: "Make general repairs on all your property. For each house pay $25. For each hotel pay $100", move_action: CardEffect::Stay });
    cards.push(GameActionCard { text: "Speeding fine $15", move_action: CardEffect::Stay });
    cards.push(GameActionCard { text: "Take a trip to Reading Railroad. If you pass Go, collect $200", move_action: CardEffect::MoveTo(5) });
    cards.push(GameActionCard { text: "You have been elected Chairman of the Board. Pay each player $50", move_action: CardEffect::Stay });
    cards.push(GameActionCard { text: "Your building loan matures. Collect $150", move_action: CardEffect::Stay });
    proof {
        assert(effects(cards@) =~= chance_effects());
        assert(texts(cards@) =~= chance_texts());
    }
    GameActionCardDeck::new(cards)
}

/// The chance deck and the community chest deck, shared by all players.
pub struct CardDecks {
    chance_deck: GameActionCardDeck,
    community_chest_deck: GameActionCardDeck,
}

impl CardDecks {
    pub closed spec fn chance(&self) -> GameActionCardDeck {
        self.chance_deck
    }

    pub closed spec fn community_chest(&self) -> GameActionCardDeck {
        self.community_chest_deck
    }

    pub open spec fn deck(&self, kind: CardDeckEnum) -> GameActionCardDeck {
        match kind {
            CardDeckEnum::Chance => self.chance(),
            CardDeckEnum::CommunityChest => self.community_chest(),
        }
    }

    /// Both decks are whole, and each holds only cards that fit it.
    pub open spec fn wf(&self) -> bool {
        &&& self.chance().wf()
        &&& self.community_chest().wf()
        &&& self.chance().holds_only(CardDeckEnum::Chance)
        &&& self.community_chest().holds_only(CardDeckEnum::CommunityChest)
    }

    pub fn new() -> (r: Self)
        ensures
            r.wf(),
            r.chance()@.draw.len() == 0,
            effects(r.chance()@.discard) == chance_effects(),
            texts(r.chance()@.discard) == chance_texts(),
            r.community_chest()@.draw.len() == 0,
            effects(r.community_chest()@.discard) == community_chest_effects(),
            texts(r.community_chest()@.discard) == community_chest_texts(),
    {
        CardDecks { chance_deck: init_chance(), community_chest_deck: init_community_chest() }
    }

    pub fn get_chance_deck(&mut self) -> (r: &mut GameActionCardDeck)
        ensures
            *r == old(self).chance(),
            final(self).chance() == *final(r),
            final(self).community_chest() == old(self).community_chest(),
    {
        &mut self.chance_deck
    }

    pub fn get_community_chest_deck(&mut self) -> (r: &mut GameActionCardDeck)
        ensures
            *r == old(self).community_chest(),
            final(self).community_chest() == *final(r),
            final(self).chance() == old(self).chance(),
    {
        &mut self.community_chest_deck
    }

    /// Draws one card from the deck of the given kind; the other deck is
    /// left as it was.
    pub fn draw(&mut self, kind: CardDeckEnum, rng: &mut ThreadRng) -> (card: GameActionCard)
        requires
            old(self).wf(),
        ensures
            final(self).wf(),
            draws(old(self).deck(kind)@, final(self).deck(kind)@, card),
            fits_deck(card, kind),
            kind == CardDeckEnum::Chance ==> final(self).community_chest() == old(
                self,
            ).community_chest(),
            kind == CardDeckEnum::CommunityChest ==> final(self).chance() == old(self).chance(),
    {
        let card = match kind {
            CardDeckEnum::Chance => *self.get_chance_deck().draw_card(rng).unwrap(),
            CardDeckEnum::CommunityChest => *self.get_community_chest_deck().draw_card(
                rng,
            ).unwrap(),
        };
        proof {
            let after = self.deck(kind)@;
            assert(after.discard.last() == card);
            assert(fits_deck(after.discard[after.discard.len() - 1], kind));
        }
        card
    }
}

/// Draws hand out the draw pile front first: from any deck state, as long
/// as the draw pile lasts, the `k` cards drawn are the first `k` cards of
/// the draw pile, and no shuffle happens in between.
pub proof fn lemma_draws_front_first(states: Seq<DeckState>, cards: Seq<GameActionCard>)
    requires
        states.len() == cards.len() + 1,
        cards.len() <= states[0].draw.len(),
        forall|j: int| 0 <= j < cards.len() ==> draws(states[j], states[j + 1], #[trigger] cards[j]),
    ensures
        cards == states[0].draw.take(cards.len() as int),
        states.last().draw == states[0].draw.skip(cards.len() as int),
    decreases cards.len(),
{
    if cards.len() > 0 {
        let k = cards.len() - 1;
        lemma_draws_front_first(states.drop_last(), cards.drop_last());
        assert(states.drop_last()[0] == states[0]);
        assert(states[k] == states.drop_last().last());
        assert(draws(states[k], states[k + 1], cards[k]));
        assert(states[k].draw.len() > 0);
        assert(cards =~= states[0].draw.take(cards.len() as int));
        assert(states.last().draw =~= states[0].draw.skip(cards.len() as int));
    } else {
        assert(states[0].draw.skip(0) =~= states[0].draw);
    }
}

/// Draw without replacement: from a deck whose draw pile is empty, the
/// next draws shuffle the discard pile and then hand out every card of the
/// deck exactly once before any card can come again.
pub proof fn lemma_batch_hands_out_every_card(states: Seq<DeckState>, cards: Seq<GameActionCard>)
    requires
        states.len() == cards.len() + 1,
        states[0].draw.len() == 0,
        cards.len() == states[0].discard.len(),
        cards.len() > 0,
        forall|j: int| 0 <= j < cards.len() ==> draws(states[j], states[j + 1], #[trigger] cards[j]),
    ensures
        cards.to_multiset() == states[0].cards().to_multiset(),
        states.last().draw.len() == 0,
{
    broadcast use group_to_multiset_ensures;

    assert(draws(states[0], states[1], cards[0]));
    let picks = choose|picks: Seq<usize>|
        {
            &&& #[trigger] picks_valid(states[0].discard.len(), picks)
            &&& states[1] == draw_step(refilled(states[0], picks))
            &&& cards[0] == refilled(states[0], picks).draw[0]
        };
    let shuffled = shuffle_by(states[0].discard, picks);
    lemma_shuffle_permutes(states[0].discard, picks);
    let later = states.drop_first();
    let rest = cards.drop_first();
    assert forall|j: int| 0 <= j < rest.len() implies draws(
        later[j],
        later[j + 1],
        #[trigger] rest[j],
    ) by {
        assert(draws(states[j + 1], states[j + 2], cards[j + 1]));
    }
    assert(states[1].draw == shuffled.drop_first());
    lemma_draws_front_first(later, rest);
    assert(cards =~= seq![cards[0]] + rest);
    assert(shuffled =~= seq![shuffled[0]] + shuffled.drop_first());
    assert(rest =~= shuffled.drop_first());
    assert(cards =~= shuffled);
    assert(states[0].cards() =~= states[0].discard);
    assert(later.last() == states.last());
}

} // verus!
