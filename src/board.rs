use vstd::prelude::*;

verus! {

/// The number of spaces on the board; the space after the last is the first.
pub const BOARD_SIZE: u8 = 40;

/// The jail space, where go-to-jail redirects and forced jailings end.
pub const JAIL: u8 = 10;

/// The two card decks a space can draw from.
#[derive(Clone, Copy, Debug, PartialEq, Eq, Structural)]
pub enum CardDeckEnum {
    Chance,
    CommunityChest,
}

/// What landing on a space sets off: nothing (a plain space), a card draw,
/// or a move to another space (go to jail).
#[derive(Clone, Copy, Debug, PartialEq, Eq, Structural)]
pub enum SpaceActionEnum {
    NoAction,
    DrawCard(CardDeckEnum),
    MovePlayer(u8),
}

/// The fixed layout: community chest on 2, 17 and 33, chance on 7, 22 and
/// 36, go to jail on 30, every other space plain.
pub open spec fn space_action(index: int) -> SpaceActionEnum {
    if index == 2 || index == 17 || index == 33 {
        SpaceActionEnum::DrawCard(CardDeckEnum::CommunityChest)
    } else if index == 7 || index == 22 || index == 36 {
        SpaceActionEnum::DrawCard(CardDeckEnum::Chance)
    } else if index == 30 {
        SpaceActionEnum::MovePlayer(JAIL)
    } else {
        SpaceActionEnum::NoAction
    }
}

/// How many further landings a space can set off at most: none from a plain
/// space, one from go to jail or a community chest, two from a chance space
/// (a chance card may send the player to a community chest).
pub open spec fn space_rank(index: int) -> nat {
    match space_action(index) {
        SpaceActionEnum::NoAction => 0,
        SpaceActionEnum::MovePlayer(_) => 1,
        SpaceActionEnum::DrawCard(CardDeckEnum::CommunityChest) => 1,
        SpaceActionEnum::DrawCard(CardDeckEnum::Chance) => 2,
    }
}

/// The space a tentative landing past the last space comes to: one lap
/// is subtracted.
pub open spec fn wrapped(tentative: int) -> int {
    if tentative >= BOARD_SIZE {
        tentative - BOARD_SIZE
    } else {
        tentative
    }
}

/// The names of the spaces, in board order.
pub open spec fn space_names() -> Seq<Seq<char>> {
    seq![
        "Go"@,
        "Mediterranean Avenue"@,
        "Community Chest"@,
        "Baltic Avenue"@,
        "Income Tax"@,
        "Reading Railroad"@,
        "Oriental Avenue"@,
        "Chance"@,
        "Vermont Avenue"@,
        "Connecticut Avenue"@,
        "Jail"@,
        "St. Charles Place"@,
        "Electric Company"@,
        "States Avenue"@,
        "Virginia Avenue"@,
        "Pennsylvania Railroad"@,
        "St. James Place"@,
        "Community Chest"@,
        "Tennessee Avenue"@,
        "New York Avenue"@,
        "Free Parking"@,
        "Kentucky Avenue"@,
        "Chance"@,
        "Indiana Avenue"@,
        "Illinois Avenue"@,
        "B & O Railroad"@,
        "Atlantic Avenue"@,
        "Ventnor Avenue"@,
        "Waterworks"@,
        "Marvin Gardens"@,
        "Go To Jail"@,
        "Pacific Avenue"@,
        "North Carolina Avenue"@,
        "Community Chest"@,
        "Pennsylvania Avenue"@,
        "Short Line Railroad"@,
        "Chance"@,
        "Park Place"@,
        "Luxury Tax"@,
        "Boardwalk"@,
    ]
}

/// One space of the board: its name, what landing on it does, and how often
/// it has been landed on.
pub struct BoardSpace {
    name: &'static str,
    action: SpaceActionEnum,
    landed_count: u64,
}

impl BoardSpace {
    pub closed spec fn action(&self) -> SpaceActionEnum {
        self.action
    }

    pub closed spec fn count(&self) -> nat {
        self.landed_count as nat
    }

    pub closed spec fn name_view(&self) -> Seq<char> {
        self.name@
    }

    pub fn get_space_name(&self) -> (r: &str)
        ensures
            r@ == self.name_view(),
    {
        self.name
    }

    pub fn get_landed_count(&self) -> (r: u64)
        ensures
            r as nat == self.count(),
    {
        self.landed_count
    }

    /// Records one landing and returns what it sets off.
    pub fn increment_landed(&mut self) -> (r: SpaceActionEnum)
        requires
            old(self).count() < u64::MAX,
        ensures
            final(self).count() == old(self).count() + 1,
            final(self).action() == old(self).action(),
            final(self).name_view() == old(self).name_view(),
            r == old(self).action(),
    {
        self.landed_count = self.landed_count + 1;
        self.action
    }
}

/// The landing counts of a board, space by space.
pub open spec fn counts(board: Seq<BoardSpace>) -> Seq<nat> {
    board.map_values(|s: BoardSpace| s.count())
}

/// A board has its forty spaces in order, each with its fixed name and action.
pub open spec fn board_wf(board: Seq<BoardSpace>) -> bool {
    &&& board.len() == BOARD_SIZE
    &&& forall|i: int|
        0 <= i < BOARD_SIZE ==> (#[trigger] board[i]).action() == space_action(i)
            && board[i].name_view() == space_names()[i]
}

/// The sum of a sequence of counts.
pub open spec fn total(s: Seq<nat>) -> nat
    decreases s.len(),
{
    if s.len() == 0 {
        0
    } else {
        total(s.drop_last()) + s.last()
    }
}

/// What landing on the space with the given index sets off.
pub fn action_at(index: u8) -> (r: SpaceActionEnum)
    ensures
        r == space_action(index as int),
{
    if index == 2 || index == 17 || index == 33 {
        SpaceActionEnum::DrawCard(CardDeckEnum::CommunityChest)
    } else if index == 7 || index == 22 || index == 36 {
        SpaceActionEnum::DrawCard(CardDeckEnum::Chance)
    } else if index == 30 {
        SpaceActionEnum::MovePlayer(JAIL)
    } else {
        SpaceActionEnum::NoAction
    }
}

/// Brings a tentative landing back onto the board.
pub fn wrap_position(tentative: u8) -> (r: u8)
    requires
        tentative < 2 * BOARD_SIZE,
    ensures
        r as int == wrapped(tentative as int),
        r < BOARD_SIZE,
{
    if tentative > 39 {
        tentative - BOARD_SIZE
    } else {
        tentative
    }
}

/// The name of the space with the given index.
pub fn space_name(index: u8) -> (r: &'static str)
    requires
        index < BOARD_SIZE,
    ensures
        r@ == space_names()[index as int],
{
    match index {
        0 => "Go",
        1 => "Mediterranean Avenue",
        2 => "Community Chest",
        3 => "Baltic Avenue",
        4 => "Income Tax",
        5 => "Reading Railroad",
        6 => "Oriental Avenue",
        7 => "Chance",
        8 => "Vermont Avenue",
        9 => "Connecticut Avenue",
        10 => "Jail",
        11 => "St. Charles Place",
        12 => "Electric Company",
        13 => "States Avenue",
        14 => "Virginia Avenue",
        15 => "Pennsylvania Railroad",
        16 => "St. James Place",
        17 => "Community Chest",
        18 => "Tennessee Avenue",
        19 => "New York Avenue",
        20 => "Free Parking",
        21 => "Kentucky Avenue",
        22 => "Chance",
        23 => "Indiana Avenue",
        24 => "Illinois Avenue",
        25 => "B & O Railroad",
        26 => "Atlantic Avenue",
        27 => "Ventnor Avenue",
        28 => "Waterworks",
        29 => "Marvin Gardens",
        30 => "Go To Jail",
        31 => "Pacific Avenue",
        32 => "North Carolina Avenue",
        33 => "Community Chest",
        34 => "Pennsylvania Avenue",
        35 => "Short Line Railroad",
        36 => "Chance",
        37 => "Park Place",
        38 => "Luxury Tax",
        _ => "Boardwalk",
    }
}

/// A fresh board: the forty spaces in order, none landed on yet.
pub fn initialize_game_board() -> (board: Vec<BoardSpace>)
    ensures
        board_wf(board@),
        forall|i: int| 0 <= i < BOARD_SIZE ==> (#[trigger] board@[i]).count() == 0,
{
    let mut board: Vec<BoardSpace> = Vec::with_capacity(40);
    let mut index: u8 = 0;
    while index < BOARD_SIZE
        invariant
            index <= BOARD_SIZE,
            board@.len() == index,
            forall|i: int|
                0 <= i < index ==> (#[trigger] board@[i]).action() == space_action(i)
                    && board@[i].name_view() == space_names()[i],
            forall|i: int| 0 <= i < index ==> (#[trigger] board@[i]).count() == 0,
        decreases BOARD_SIZE - index,
    {
        board.push(BoardSpace { name: space_name(index), action: action_at(index), landed_count: 0 });
        index = index + 1;
    }
    board
}

/// Records a landing on the space with the given index and returns what it
/// sets off.
pub fn record_landing(board: &mut Vec<BoardSpace>, index: u8) -> (r: SpaceActionEnum)
    requires
        board_wf(old(board)@),
        index < BOARD_SIZE,
        old(board)@[index as int].count() < u64::MAX,
    ensures
        board_wf(final(board)@),
        counts(final(board)@) == counts(old(board)@).update(
            index as int,
            counts(old(board)@)[index as int] + 1,
        ),
        r == space_action(index as int),
{
    let i = index as usize;
    let r = board[i].increment_landed();
    proof {
        assert(counts(board@) =~= counts(old(board)@).update(
            index as int,
            counts(old(board)@)[index as int] + 1,
        ));
    }
    r
}

} // verus!
