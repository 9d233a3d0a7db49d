use wfc::game::{
    broadcast_recipients, entities_of_member, find_spawn, is_lobby_owner, leaves_lobby, pause_on_escape, player_menu_on_escape,
    player_menu_on_tab, players_to_despawn, start_game_on_message, ActiveMenu, ChatMemberStateChange, GameState,
    IsPaused, Tile,
};
use wfc::map::Map2D;
use wfc::{i64vec2, I64Vec2};

fn empty_map(w: i64, h: i64) -> Map2D<Tile> {
    Map2D::new(I64Vec2::new(w, h), Tile::Empty)
}

#[test]
fn tile_numbers_round_trip() {
    let all = [
        Tile::Empty,
        Tile::TopRight,
        Tile::TopLeft,
        Tile::DownLeft,
        Tile::DownRight,
        Tile::Horizontal,
        Tile::Vertical,
        Tile::EmptyWithLight,
    ];
    for (i, t) in all.iter().enumerate() {
        assert_eq!(t.index(), i);
        assert_eq!(Tile::from_index(i), Some(*t));
    }
    assert_eq!(Tile::from_index(8), None);
}

#[test]
fn spawn_at_the_center_first() {
    let mut m = empty_map(5, 5);
    m.set_cell(i64vec2(2, 2), Tile::EmptyWithLight);
    m.set_cell(i64vec2(1, 1), Tile::EmptyWithLight);
    assert_eq!(find_spawn(&m), Some(i64vec2(2, 2)));
}

#[test]
fn spawn_searches_inner_rings_first() {
    let mut m = empty_map(5, 5);
    m.set_cell(i64vec2(4, 4), Tile::EmptyWithLight);
    m.set_cell(i64vec2(1, 0), Tile::EmptyWithLight);
    m.set_cell(i64vec2(1, 2), Tile::EmptyWithLight);
    // (1, 2) lies on the ring of radius one around (2, 2); the others on radius two.
    assert_eq!(find_spawn(&m), Some(i64vec2(1, 2)));
}

#[test]
fn spawn_walks_each_ring_top_right_bottom_left() {
    let mut m = empty_map(5, 5);
    m.set_cell(i64vec2(1, 2), Tile::EmptyWithLight);
    m.set_cell(i64vec2(3, 2), Tile::EmptyWithLight);
    assert_eq!(find_spawn(&m), Some(i64vec2(3, 2)));
    m.set_cell(i64vec2(2, 3), Tile::EmptyWithLight);
    assert_eq!(find_spawn(&m), Some(i64vec2(3, 2)));
    m.set_cell(i64vec2(1, 1), Tile::EmptyWithLight);
    assert_eq!(find_spawn(&m), Some(i64vec2(1, 1)));
}

#[test]
fn spawn_reaches_the_corners_of_an_uneven_map() {
    let mut m = empty_map(7, 2);
    m.set_cell(i64vec2(6, 0), Tile::EmptyWithLight);
    assert_eq!(find_spawn(&m), Some(i64vec2(6, 0)));
    let mut n = empty_map(1, 1);
    assert_eq!(find_spawn(&n), None);
    n.set_cell(i64vec2(0, 0), Tile::EmptyWithLight);
    assert_eq!(find_spawn(&n), Some(i64vec2(0, 0)));
}

#[test]
fn no_spawn_without_a_lit_piece() {
    let m = empty_map(6, 4);
    assert_eq!(find_spawn(&m), None);
}

#[test]
fn states_start_where_the_game_does() {
    assert_eq!(GameState::default(), GameState::Menu);
    assert_eq!(ActiveMenu::default(), ActiveMenu::Closed);
    assert_eq!(IsPaused::default(), IsPaused::Running);
}

#[test]
fn escape_flips_pause() {
    assert_eq!(pause_on_escape(true, IsPaused::Running), Some(IsPaused::Paused));
    assert_eq!(pause_on_escape(true, IsPaused::Paused), Some(IsPaused::Running));
    assert_eq!(pause_on_escape(false, IsPaused::Paused), None);
    let once = pause_on_escape(true, IsPaused::Running).unwrap();
    assert_eq!(pause_on_escape(true, once), Some(IsPaused::Running));
}

#[test]
fn tab_toggles_the_player_menu() {
    assert_eq!(player_menu_on_tab(true, ActiveMenu::Closed), Some(ActiveMenu::PlayerMenu));
    assert_eq!(player_menu_on_tab(true, ActiveMenu::PlayerMenu), Some(ActiveMenu::Closed));
    assert_eq!(player_menu_on_tab(true, ActiveMenu::Pause), None);
    assert_eq!(player_menu_on_tab(false, ActiveMenu::Closed), None);
    assert_eq!(player_menu_on_escape(true, ActiveMenu::PlayerMenu), Some(ActiveMenu::Closed));
    assert_eq!(player_menu_on_escape(true, ActiveMenu::Pause), None);
    assert_eq!(player_menu_on_escape(false, ActiveMenu::PlayerMenu), None);
}

#[test]
fn only_the_owner_starts_the_game() {
    assert_eq!(start_game_on_message(Some(7), 7), Some(GameState::InGame));
    assert_eq!(start_game_on_message(Some(7), 8), None);
    assert_eq!(start_game_on_message(None, 7), None);
    assert!(is_lobby_owner(3, 3));
    assert!(!is_lobby_owner(3, 4));
}

#[test]
fn leaving_members_lose_their_entities() {
    assert!(!leaves_lobby(ChatMemberStateChange::Entered));
    for c in [
        ChatMemberStateChange::Left,
        ChatMemberStateChange::Disconnected,
        ChatMemberStateChange::Kicked,
        ChatMemberStateChange::Banned,
    ] {
        assert!(leaves_lobby(c));
    }
    let players = vec![(10, 1), (11, 2), (12, 1)];
    assert_eq!(players_to_despawn(ChatMemberStateChange::Left, 1, &players), vec![10, 12]);
    assert_eq!(players_to_despawn(ChatMemberStateChange::Banned, 3, &players), Vec::<u64>::new());
    assert_eq!(players_to_despawn(ChatMemberStateChange::Entered, 1, &players), Vec::<u64>::new());
}

#[test]
fn broadcasts_skip_the_sender() {
    assert_eq!(broadcast_recipients(&vec![4, 5, 6, 5], 5), vec![4, 6]);
    assert_eq!(broadcast_recipients(&vec![5], 5), Vec::<u64>::new());
}

#[test]
fn positions_go_to_the_sender_s_entities() {
    let players = vec![(10, 1), (11, 2), (12, 1), (13, 3)];
    assert_eq!(entities_of_member(&players, 1), vec![10, 12]);
    assert_eq!(entities_of_member(&players, 3), vec![13]);
    assert_eq!(entities_of_member(&players, 9), Vec::<u64>::new());
}
