use vstd::prelude::*;

use crate::map::{in_range, trunc_div, Map2D};
use crate::vec2::I64Vec2;

verus! {

/// The pieces the backrooms level is built from; a piece's number is its position here
/// and names its scene in the level model.
#[derive(Clone, Copy, PartialEq, Eq, Hash, Debug, Structural)]
pub enum Tile {
    Empty,
    TopRight,
    TopLeft,
    DownLeft,
    DownRight,
    Horizontal,
    Vertical,
    EmptyWithLight,
}

impl Tile {
    /// The number of this piece.
    pub open spec fn spec_index(self) -> usize {
        match self {
            Tile::Empty => 0,
            Tile::TopRight => 1,
            Tile::TopLeft => 2,
            Tile::DownLeft => 3,
            Tile::DownRight => 4,
            Tile::Horizontal => 5,
            Tile::Vertical => 6,
            Tile::EmptyWithLight => 7,
        }
    }

    /// The number of this piece, which names its scene in the level model.
    pub fn index(self) -> (r: usize)
        ensures
            r == self.spec_index(),
    {
        match self {
            Tile::Empty => 0,
            Tile::TopRight => 1,
            Tile::TopLeft => 2,
            Tile::DownLeft => 3,
            Tile::DownRight => 4,
            Tile::Horizontal => 5,
            Tile::Vertical => 6,
            Tile::EmptyWithLight => 7,
        }
    }

    /// The piece numbered `index`.
    pub fn from_index(index: usize) -> (r: Option<Tile>)
        ensures
            r matches Some(t) ==> t.spec_index() == index,
            r is None <==> index >= 8,
    {
        match index {
            0 => Some(Tile::Empty),
            1 => Some(Tile::TopRight),
            2 => Some(Tile::TopLeft),
            3 => Some(Tile::DownLeft),
            4 => Some(Tile::DownRight),
            5 => Some(Tile::Horizontal),
            6 => Some(Tile::Vertical),
            7 => Some(Tile::EmptyWithLight),
            _ => None,
        }
    }
}

/// Law: numbering the pieces and reading the number back gives the piece.
pub proof fn law_tile_index_roundtrip(t: Tile)
    ensures
        t.spec_index() < 8,
        forall|u: Tile| #[trigger] u.spec_index() == t.spec_index() ==> u == t,
{
}

/// Players may spawn at `p`: it holds a lit empty piece.
pub open spec fn is_spawn(map: Map2D<Tile>, p: I64Vec2) -> bool {
    map.cell(p) == Some(Tile::EmptyWithLight)
}

/// The middle of a map of extent `size` (each coordinate halved toward zero).
pub open spec fn center_of(size: I64Vec2) -> I64Vec2 {
    I64Vec2 { x: trunc_div(size.x as int, 2) as i64, y: trunc_div(size.y as int, 2) as i64 }
}

pub open spec fn abs(a: int) -> int {
    if a >= 0 { a } else { -a }
}

/// How many rings around `c` lie between `c` and `q`.
pub open spec fn ring_of(c: I64Vec2, q: I64Vec2) -> int {
    let dx = abs(q.x - c.x);
    let dy = abs(q.y - c.y);
    if dx >= dy { dx } else { dy }
}

/// The place of `q` along its ring of radius `r` around `c`: first the top side from its
/// left end rightwards, then the right side downwards, the bottom side leftwards and the
/// left side upwards, each side `2 * r` long.
pub open spec fn ring_rank(c: I64Vec2, r: int, q: I64Vec2) -> int {
    if q.y == c.y - r && q.x < c.x + r {
        q.x - (c.x - r)
    } else if q.x == c.x + r && q.y < c.y + r {
        2 * r + (q.y - (c.y - r))
    } else if q.y == c.y + r && q.x > c.x - r {
        4 * r + (c.x + r - q.x)
    } else {
        6 * r + (c.y + r - q.y)
    }
}

/// `q` comes before `p` in the search around `c`: on an inner ring, or earlier on the same
/// ring.
pub open spec fn searched_before(c: I64Vec2, q: I64Vec2, p: I64Vec2) -> bool {
    ring_of(c, q) < ring_of(c, p) || (ring_of(c, q) == ring_of(c, p) && ring_rank(c, ring_of(c, p), q)
        < ring_rank(c, ring_of(c, p), p))
}

/// Law: on a map of positive extent the search starts from the middle cell of each axis,
/// `(size.x / 2, size.y / 2)`, which lies on the map.
pub proof fn law_center_on_map(size: I64Vec2)
    requires
        size.x >= 1,
        size.y >= 1,
    ensures
        center_of(size) == (I64Vec2 { x: (size.x / 2) as i64, y: (size.y / 2) as i64 }),
        in_range(size, center_of(size)),
{
}

/// The cell at `p` holds a lit empty piece.
fn spawn_at(map: &Map2D<Tile>, p: I64Vec2) -> (r: bool)
    requires
        map.well_formed(),
    ensures
        r == is_spawn(*map, p),
{
    match map.get_cell(p) {
        Some(t) => *t == Tile::EmptyWithLight,
        None => false,
    }
}

/// Where the lit empty piece nearest the middle lies, searching ring by ring outwards
/// from the middle and along each ring as `ring_rank` orders it; `None` when the map has
/// no such piece.
pub fn find_spawn(map: &Map2D<Tile>) -> (r: Option<I64Vec2>)
    requires
        map.well_formed(),
        map.extent().x <= i64::MAX / 2,
        map.extent().y <= i64::MAX / 2,
    ensures
        r matches Some(p) ==> is_spawn(*map, p) && forall|q: I64Vec2|
            #[trigger] is_spawn(*map, q) ==> !searched_before(center_of(map.extent()), q, p),
        r is None ==> forall|q: I64Vec2| !#[trigger] is_spawn(*map, q),
        is_spawn(*map, I64Vec2 { x: (map.extent().x / 2) as i64, y: (map.extent().y / 2) as i64 }) ==> r == Some(
            I64Vec2 { x: (map.extent().x / 2) as i64, y: (map.extent().y / 2) as i64 },
        ),
        r matches Some(p) ==> forall|q: I64Vec2|
            #[trigger] is_spawn(*map, q) ==> !searched_before(
                I64Vec2 { x: (map.extent().x / 2) as i64, y: (map.extent().y / 2) as i64 },
                q,
                p,
            ),
{
    let size = map.size();
    let center = I64Vec2 { x: size.x / 2, y: size.y / 2 };
    proof {
        assert(center == center_of(size)) by {
            vstd::arithmetic::div_mod::lemma_fundamental_div_mod(size.x as int, 2);
        }
    }
    proof {
        if size.x >= 1 && size.y >= 1 {
            law_center_on_map(size);
        }
    }
    if spawn_at(map, center) {
        return Some(center);
    }
    let max_radius = if size.x >= size.y { size.x } else { size.y };
    let mut radius: i64 = 1;
    while radius <= max_radius
        invariant
            map.well_formed(),
            size == map.extent(),
            center == center_of(size),
            max_radius == (if size.x >= size.y { size.x } else { size.y }),
            max_radius <= i64::MAX / 2,
            1 <= radius,
            !is_spawn(*map, center),
            forall|q: I64Vec2| ring_of(center, q) < radius ==> !#[trigger] is_spawn(*map, q),
        decreases max_radius - radius + 1,
    {
        let ghost r = radius as int;
        let side = 2 * radius;
        let mut pos = I64Vec2 { x: center.x - radius, y: center.y - radius };
        let mut k: i64 = 0;
        // Top side, rightwards.
        while k < side
            invariant
                map.well_formed(),
                side == 2 * r,
                1 <= r <= i64::MAX / 2,
                center == center_of(size),
                size == map.extent(),
                0 <= k <= side,
                pos == (I64Vec2 { x: (center.x - r + k) as i64, y: (center.y - r) as i64 }),
                forall|q: I64Vec2| ring_of(center, q) < r ==> !#[trigger] is_spawn(*map, q),
                forall|q: I64Vec2| ring_of(center, q) == r && ring_rank(center, r, q) < k ==> !#[trigger] is_spawn(*map, q),
            decreases side - k,
        {
            if spawn_at(map, pos) {
                return Some(pos);
            }
            pos.x = pos.x + 1;
            k += 1;
        }
        k = 0;
        // Right side, downwards.
        while k < side
            invariant
                map.well_formed(),
                side == 2 * r,
                1 <= r <= i64::MAX / 2,
                center == center_of(size),
                size == map.extent(),
                0 <= k <= side,
                pos == (I64Vec2 { x: (center.x + r) as i64, y: (center.y - r + k) as i64 }),
                forall|q: I64Vec2| ring_of(center, q) < r ==> !#[trigger] is_spawn(*map, q),
                forall|q: I64Vec2| ring_of(center, q) == r && ring_rank(center, r, q) < 2 * r + k ==> !#[trigger] is_spawn(*map, q),
            decreases side - k,
        {
            if spawn_at(map, pos) {
                return Some(pos);
            }
            pos.y = pos.y + 1;
            k += 1;
        }
        k = 0;
        // Bottom side, leftwards.
        while k < side
            invariant
                map.well_formed(),
                side == 2 * r,
                1 <= r <= i64::MAX / 2,
                center == center_of(size),
                size == map.extent(),
                0 <= k <= side,
                pos == (I64Vec2 { x: (center.x + r - k) as i64, y: (center.y + r) as i64 }),
                forall|q: I64Vec2| ring_of(center, q) < r ==> !#[trigger] is_spawn(*map, q),
                forall|q: I64Vec2| ring_of(center, q) == r && ring_rank(center, r, q) < 4 * r + k ==> !#[trigger] is_spawn(*map, q),
            decreases side - k,
        {
            if spawn_at(map, pos) {
                return Some(pos);
            }
            pos.x = pos.x - 1;
            k += 1;
        }
        k = 0;
        // Left side, upwards.
        while k < side
            invariant
                map.well_formed(),
                side == 2 * r,
                1 <= r <= i64::MAX / 2,
                center == center_of(size),
                size == map.extent(),
                0 <= k <= side,
                pos == (I64Vec2 { x: (center.x - r) as i64, y: (center.y + r - k) as i64 }),
                forall|q: I64Vec2| ring_of(center, q) < r ==> !#[trigger] is_spawn(*map, q),
                forall|q: I64Vec2| ring_of(center, q) == r && ring_rank(center, r, q) < 6 * r + k ==> !#[trigger] is_spawn(*map, q),
            decreases side - k,
        {
            if spawn_at(map, pos) {
                return Some(pos);
            }
            pos.y = pos.y - 1;
            k += 1;
        }
        radius += 1;
    }
    None
}

/// The screens of the game.
#[derive(Clone, Copy, PartialEq, Eq, Hash, Debug, Structural)]
pub enum GameState {
    Menu,
    SearchLobby,
    CreatingLobby,
    WaitingForPlayers,
    InGame,
}

impl Default for GameState {
    fn default() -> (r: Self)
        ensures
            r == GameState::Menu,
    {
        GameState::Menu
    }
}

/// The menu open over the game, if any.
#[derive(Clone, Copy, PartialEq, Eq, Hash, Debug, Structural)]
pub enum ActiveMenu {
    Closed,
    Pause,
    PlayerMenu,
}

impl Default for ActiveMenu {
    fn default() -> (r: Self)
        ensures
            r == ActiveMenu::Closed,
    {
        ActiveMenu::Closed
    }
}

/// Whether the game is paused.
#[derive(Clone, Copy, PartialEq, Eq, Hash, Debug, Structural)]
pub enum IsPaused {
    Running,
    Paused,
}

impl Default for IsPaused {
    fn default() -> (r: Self)
        ensures
            r == IsPaused::Running,
    {
        IsPaused::Running
    }
}

/// The other pause state.
pub open spec fn flipped(p: IsPaused) -> IsPaused {
    match p {
        IsPaused::Paused => IsPaused::Running,
        IsPaused::Running => IsPaused::Paused,
    }
}

/// The pause state to switch to when escape may have been pressed: the other one on a
/// press, none otherwise.
pub fn pause_on_escape(escape_pressed: bool, paused: IsPaused) -> (r: Option<IsPaused>)
    ensures
        r == (if escape_pressed { Some(flipped(paused)) } else { None }),
{
    if escape_pressed {
        match paused {
            IsPaused::Paused => Some(IsPaused::Running),
            IsPaused::Running => Some(IsPaused::Paused),
        }
    } else {
        None
    }
}

/// Law: pressing escape twice comes back to the same pause state.
pub proof fn law_pause_twice(p: IsPaused)
    ensures
        flipped(flipped(p)) == p,
        flipped(p) != p,
{
}

/// The menu that tab switches to from `current`: the player list opens over the game and
/// closes back to it; another open menu is left alone.
pub open spec fn tab_target(current: ActiveMenu) -> Option<ActiveMenu> {
    match current {
        ActiveMenu::Closed => Some(ActiveMenu::PlayerMenu),
        ActiveMenu::PlayerMenu => Some(ActiveMenu::Closed),
        ActiveMenu::Pause => None,
    }
}

/// The menu to switch to when tab may have been pressed.
pub fn player_menu_on_tab(tab_pressed: bool, current: ActiveMenu) -> (r: Option<ActiveMenu>)
    ensures
        r == (if tab_pressed { tab_target(current) } else { None }),
{
    if !tab_pressed {
        return None;
    }
    match current {
        ActiveMenu::Closed => Some(ActiveMenu::PlayerMenu),
        ActiveMenu::PlayerMenu => Some(ActiveMenu::Closed),
        _ => None,
    }
}

/// Law: from the game or the player list, two presses of tab come back to where they
/// started; over the pause menu tab does nothing.
pub proof fn law_tab_twice(current: ActiveMenu)
    ensures
        current != ActiveMenu::Pause ==> tab_target(current) is Some && tab_target(tab_target(current).unwrap())
            == Some(current),
        current == ActiveMenu::Pause ==> tab_target(current) is None,
{
}

/// The menu to switch to when escape may have been pressed: the player list closes.
pub fn player_menu_on_escape(escape_pressed: bool, current: ActiveMenu) -> (r: Option<ActiveMenu>)
    ensures
        r == (if escape_pressed && current == ActiveMenu::PlayerMenu {
            Some(ActiveMenu::Closed)
        } else {
            None
        }),
{
    if escape_pressed && current == ActiveMenu::PlayerMenu {
        Some(ActiveMenu::Closed)
    } else {
        None
    }
}

/// The screen to switch to when a start-game message comes from `sender`: the game, when
/// the sender owns the current lobby.
pub fn start_game_on_message(lobby_owner: Option<u64>, sender: u64) -> (r: Option<GameState>)
    ensures
        r == (if lobby_owner == Some(sender) { Some(GameState::InGame) } else { None }),
{
    match lobby_owner {
        Some(owner) => if owner == sender {
            Some(GameState::InGame)
        } else {
            None
        },
        None => None,
    }
}

/// Only the lobby's owner may press start, and only the owner generates the level.
pub fn is_lobby_owner(my_id: u64, owner_id: u64) -> (r: bool)
    ensures
        r == (my_id == owner_id),
{
    my_id == owner_id
}

/// How a member's place in a lobby changed.
#[derive(Clone, Copy, PartialEq, Eq, Hash, Debug, Structural)]
pub enum ChatMemberStateChange {
    Entered,
    Left,
    Disconnected,
    Kicked,
    Banned,
}

/// The member is gone from the lobby.
pub open spec fn spec_leaves_lobby(change: ChatMemberStateChange) -> bool {
    change != ChatMemberStateChange::Entered
}

/// The member is gone from the lobby after `change`.
pub fn leaves_lobby(change: ChatMemberStateChange) -> (r: bool)
    ensures
        r == spec_leaves_lobby(change),
{
    match change {
        ChatMemberStateChange::Left | ChatMemberStateChange::Disconnected | ChatMemberStateChange::Banned
        | ChatMemberStateChange::Kicked => true,
        _ => false,
    }
}

/// The entities, among `players` (entity, member) pairs in order, that belong to
/// `member`: those whose position a message from `member` moves.
pub fn entities_of_member(players: &Vec<(u64, u64)>, member: u64) -> (r: Vec<u64>)
    ensures
        r@ == players@.filter(|e: (u64, u64)| e.1 == member).map_values(|e: (u64, u64)| e.0),
{
    let mut r: Vec<u64> = Vec::new();
    let mut i: usize = 0;
    while i < players.len()
        invariant
            i <= players@.len(),
            r@ == players@.subrange(0, i as int).filter(|e: (u64, u64)| e.1 == member).map_values(
                |e: (u64, u64)| e.0,
            ),
        decreases players@.len() - i,
    {
        proof {
            let s = players@.subrange(0, i + 1);
            assert(s.drop_last() =~= players@.subrange(0, i as int));
            reveal_with_fuel(Seq::filter, 1);
        }
        let (entity, owner) = players[i];
        if owner == member {
            r.push(entity);
            proof {
                let s = players@.subrange(0, i + 1);
                assert(s.filter(|e: (u64, u64)| e.1 == member) == players@.subrange(0, i as int).filter(
                    |e: (u64, u64)| e.1 == member,
                ).push(players@[i as int]));
                assert(r@ =~= s.filter(|e: (u64, u64)| e.1 == member).map_values(|e: (u64, u64)| e.0));
            }
        }
        i += 1;
    }
    proof {
        assert(players@.subrange(0, players@.len() as int) =~= players@);
    }
    r
}

/// The entities, among `players` (entity, member) pairs in order, to remove when `user`'s
/// place changed by `change`: those of `user` once it left, none otherwise.
pub fn players_to_despawn(change: ChatMemberStateChange, user: u64, players: &Vec<(u64, u64)>) -> (r: Vec<u64>)
    ensures
        !spec_leaves_lobby(change) ==> r@.len() == 0,
        spec_leaves_lobby(change) ==> r@ == players@.filter(|e: (u64, u64)| e.1 == user).map_values(
            |e: (u64, u64)| e.0,
        ),
{
    if leaves_lobby(change) {
        entities_of_member(players, user)
    } else {
        Vec::new()
    }
}

/// The members, in order, that a message to the whole lobby goes to: all but `me`.
pub fn broadcast_recipients(members: &Vec<u64>, me: u64) -> (r: Vec<u64>)
    ensures
        r@ == members@.filter(|m: u64| m != me),
{
    let mut r: Vec<u64> = Vec::new();
    let mut i: usize = 0;
    while i < members.len()
        invariant
            i <= members@.len(),
            r@ == members@.subrange(0, i as int).filter(|m: u64| m != me),
        decreases members@.len() - i,
    {
        proof {
            let s = members@.subrange(0, i + 1);
            assert(s.drop_last() =~= members@.subrange(0, i as int));
            reveal_with_fuel(Seq::filter, 1);
        }
        if members[i] != me {
            r.push(members[i]);
        }
        i += 1;
    }
    proof {
        assert(members@.subrange(0, members@.len() as int) =~= members@);
    }
    r
}

} // verus!
