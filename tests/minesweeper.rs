use chatgames::minesweeper::{map_reorder, parse_board_args, BoxPosition, BoxType, BoxesAround, Game, GameState, MaskType, MineBox, Player};

/// A board 5 wide and 3 high with a wall of mines down column 2.
fn walled() -> Game {
    let mut mines = vec![false; 15];
    mines[2] = true;
    mines[7] = true;
    mines[12] = true;
    Game::from_layout((5, 3), &mines).unwrap()
}

fn mask(g: &Game, r: usize, c: usize) -> MaskType {
    g.get(r, c).mask_type
}

#[test]
fn layout_counts_mines_around() {
    let g = walled();
    assert_eq!(g.mine_count, 3);
    assert_eq!(g.get(0, 0).box_type, BoxType::MineCount(0));
    assert_eq!(g.get(0, 1).box_type, BoxType::MineCount(2));
    assert_eq!(g.get(1, 1).box_type, BoxType::MineCount(3));
    assert_eq!(g.get(1, 3).box_type, BoxType::MineCount(3));
    assert_eq!(g.get(2, 4).box_type, BoxType::MineCount(0));
    assert_eq!(g.get(1, 2).box_type, BoxType::Mine);
    for r in 0..3 {
        for c in 0..5 {
            assert_eq!(mask(&g, r, c), MaskType::Masked);
        }
    }
}

#[test]
fn zero_cell_opens_its_region_and_border_only() {
    let mut g = walled();
    assert_eq!(g.click(0, 0, String::from("alice")), GameState::OnGoing);
    for r in 0..3 {
        assert_eq!(mask(&g, r, 0), MaskType::Unmasked);
        assert_eq!(mask(&g, r, 1), MaskType::Unmasked);
        assert_eq!(mask(&g, r, 2), MaskType::Masked);
        assert_eq!(mask(&g, r, 3), MaskType::Masked);
        assert_eq!(mask(&g, r, 4), MaskType::Masked);
    }
    assert_eq!(g.players.len(), 1);
    assert_eq!(g.players[0].name, "alice");
    assert_eq!(g.players[0].step, 1);
}

#[test]
fn numbered_cell_opens_alone() {
    let mut g = walled();
    assert_eq!(g.click(1, 3, String::from("bob")), GameState::OnGoing);
    assert_eq!(mask(&g, 1, 3), MaskType::Unmasked);
    assert_eq!(mask(&g, 1, 4), MaskType::Masked);
    assert_eq!(mask(&g, 0, 3), MaskType::Masked);
}

#[test]
fn mine_explodes_and_shows_board() {
    let mut g = walled();
    assert_eq!(g.click(1, 2, String::from("bob")), GameState::Failed);
    assert_eq!(mask(&g, 1, 2), MaskType::Exploded);
    for r in 0..3 {
        for c in 0..5 {
            if (r, c) != (1, 2) {
                assert_eq!(mask(&g, r, c), MaskType::Unmasked);
            }
        }
    }
}

#[test]
fn opening_every_safe_cell_wins() {
    let mut g = walled();
    assert_eq!(g.click(0, 0, String::from("alice")), GameState::OnGoing);
    assert_eq!(g.click(2, 4, String::from("alice")), GameState::Succeeded);
    assert_eq!(mask(&g, 0, 2), MaskType::Unmasked);
    assert_eq!(g.players[0].step, 2);
}

#[test]
fn win_regardless_of_flags() {
    let mut g = walled();
    g.set_flag(0, 2);
    g.set_flag(1, 2);
    assert_eq!(mask(&g, 0, 2), MaskType::Flagged);
    assert_eq!(g.click(0, 0, String::from("a")), GameState::OnGoing);
    assert_eq!(g.click(0, 4, String::from("b")), GameState::Succeeded);
    assert_eq!(mask(&g, 0, 2), MaskType::Flagged);
    assert_eq!(mask(&g, 1, 2), MaskType::Flagged);
    assert_eq!(mask(&g, 2, 2), MaskType::Unmasked);
    assert_eq!(g.players.len(), 2);
}

#[test]
fn chord_on_masked_count_reveals_and_explodes() {
    let mut g = walled();
    assert_eq!(g.click(0, 0, String::from("a")), GameState::OnGoing);
    // (0,1) shows 2; its two masked neighbours make 2: they are revealed,
    // and the first of them is a mine.
    assert_eq!(g.click(0, 1, String::from("a")), GameState::Failed);
    assert_eq!(mask(&g, 0, 2), MaskType::Exploded);
    assert_eq!(mask(&g, 1, 2), MaskType::Unmasked);
    assert_eq!(mask(&g, 0, 4), MaskType::Unmasked);
}

#[test]
fn chord_on_flag_count_flags_the_rest() {
    let mut g = walled();
    assert_eq!(g.click(0, 1, String::from("a")), GameState::OnGoing);
    g.set_flag(0, 2);
    g.set_flag(1, 2);
    // (0,1) shows 2 and has two flagged neighbours: its masked ones are flagged.
    assert_eq!(g.click(0, 1, String::from("a")), GameState::OnGoing);
    assert_eq!(mask(&g, 0, 0), MaskType::Flagged);
    assert_eq!(mask(&g, 1, 0), MaskType::Flagged);
    assert_eq!(mask(&g, 1, 1), MaskType::Flagged);
    assert_eq!(mask(&g, 2, 2), MaskType::Masked);
    assert_eq!(g.players[0].step, 2);
}

#[test]
fn chord_without_a_match_changes_nothing() {
    let mut g = walled();
    assert_eq!(g.click(1, 1, String::from("a")), GameState::OnGoing);
    let before = g.map.clone();
    assert_eq!(g.click(1, 1, String::from("a")), GameState::OnGoing);
    assert_eq!(g.map, before);
    assert_eq!(g.players[0].step, 1);
}

#[test]
fn flagged_and_open_zero_cells_ignore_clicks() {
    let mut g = walled();
    g.set_flag(0, 2);
    assert_eq!(g.click(0, 0, String::from("a")), GameState::OnGoing);
    let before = g.map.clone();
    assert_eq!(g.click(0, 2, String::from("a")), GameState::OnGoing);
    assert_eq!(g.click(1, 0, String::from("a")), GameState::OnGoing);
    assert_eq!(g.map, before);
    assert_eq!(g.players[0].step, 1);
}

#[test]
fn layout_with_no_safe_cell_is_refused() {
    assert!(Game::from_layout((2, 2), &vec![true; 4]).is_none());
    assert!(Game::from_layout((2, 2), &vec![false; 3]).is_none());
    assert!(Game::new((2, 2), 4).is_none());
    assert!(Game::new((0, 5), 0).is_none());
}

#[test]
fn random_board_holds_its_mines() {
    for _ in 0..20 {
        let g = Game::new((8, 8), 10).unwrap();
        let mines = g.map.iter().filter(|b| b.box_type == BoxType::Mine).count();
        assert_eq!(mines, 10);
        let open = g.map.iter().filter(|b| b.mask_type == MaskType::Unmasked).count();
        let masked = g.map.iter().filter(|b| b.mask_type == MaskType::Masked).count();
        assert_eq!(open + masked, 64);
        for r in 0..8usize {
            for c in 0..8usize {
                if let BoxType::MineCount(n) = g.get(r, c).box_type {
                    let mut around = 0;
                    for dr in [-1i64, 0, 1] {
                        for dc in [-1i64, 0, 1] {
                            let (rr, cc) = (r as i64 + dr, c as i64 + dc);
                            if (dr, dc) != (0, 0) && (0..8).contains(&rr) && (0..8).contains(&cc) {
                                if g.get(rr as usize, cc as usize).box_type == BoxType::Mine {
                                    around += 1;
                                }
                            }
                        }
                    }
                    assert_eq!(n, around);
                }
            }
        }
    }
}

#[test]
fn reorder_applies_the_swaps_in_turn() {
    let mut layout = vec![true, false, false, false];
    map_reorder(&mut layout, &vec![2, 2, 0, 3]);
    // swap 0<->2: F F T F; swap 1<->2: F T F F; swap 2<->0: F T F F; swap 3<->3.
    assert_eq!(layout, vec![false, true, false, false]);
}

#[test]
fn open_region_opens_only_a_masked_zero_cell() {
    let mut g = walled();
    g.open_region(0, 1);
    assert_eq!(mask(&g, 0, 1), MaskType::Masked);
    g.open_region(2, 4);
    assert_eq!(mask(&g, 0, 4), MaskType::Unmasked);
    assert_eq!(mask(&g, 1, 3), MaskType::Unmasked);
    assert_eq!(mask(&g, 0, 0), MaskType::Masked);
    assert!(g.players.is_empty());
}

#[test]
fn one_mine_board_opens_a_region() {
    let g = Game::new((6, 6), 1).unwrap();
    let open = g.map.iter().filter(|b| b.mask_type == MaskType::Unmasked).count();
    assert!(open > 0);
}

#[test]
fn mine_box_accessors() {
    let mut b = MineBox::new(false);
    assert_eq!(b.get_box_type(), BoxType::MineCount(0));
    assert_eq!(b.get_mask_type(), MaskType::Masked);
    b.set_mine_count(3);
    b.set_mask_type(MaskType::Flagged);
    assert_eq!(b.get_box_type(), BoxType::MineCount(3));
    assert_eq!(b.get_mask_type(), MaskType::Flagged);
    assert_eq!(MineBox::new(true).get_box_type(), BoxType::Mine);
}

#[test]
fn box_positions() {
    let p = BoxPosition::from_coords((2, 1), (5, 3));
    assert_eq!(p.get_index(), 7);
    let q = BoxPosition::from_index(7, (5, 3));
    assert_eq!((q.get_col(), q.get_row()), (2, 1));
    let mut n = BoxPosition::from_coords_no_index((4, 2));
    assert_eq!(n.get_index(), 0);
    n.set_index((5, 3));
    assert_eq!(n.get_index(), 14);
    assert_eq!(
        BoxPosition::try_parse_callback("minesweeper_4_2"),
        Some(BoxPosition::from_coords_no_index((4, 2)))
    );
    assert_eq!(BoxPosition::try_parse_callback("minesweeper_4"), None);
    let around = BoxesAround::from(&p, (5, 3));
    let found: Vec<(usize, usize)> =
        (0..8).filter_map(|k| around.nth(k)).map(|b| (b.get_row(), b.get_col())).collect();
    assert_eq!(found, vec![(0, 1), (0, 2), (0, 3), (1, 1), (1, 3), (2, 1), (2, 2), (2, 3)]);
    let indices: Vec<usize> = (0..8).filter_map(|k| around.nth(k)).map(|b| b.get_index()).collect();
    assert_eq!(indices, vec![1, 2, 3, 6, 8, 11, 12, 13]);
    let corner = BoxesAround::from(&BoxPosition::from_coords((0, 0), (5, 3)), (5, 3));
    assert_eq!((0..8).filter_map(|k| corner.nth(k)).count(), 3);
}

#[test]
fn player_starts_with_one_step() {
    let p = Player::new(String::from("carol"));
    assert_eq!(p.name, "carol");
    assert_eq!(p.step, 1);
}

#[test]
fn start_command_arguments() {
    assert_eq!(parse_board_args(&[]), Some((8, 8, 9)));
    assert_eq!(parse_board_args(&["5", "6", "7"]), Some((5, 6, 7)));
    assert_eq!(parse_board_args(&["9", "6", "7"]), None);
    assert_eq!(parse_board_args(&["2", "2", "4"]), None);
    assert_eq!(parse_board_args(&["2", "2", "3"]), Some((2, 2, 3)));
    assert_eq!(parse_board_args(&["2", "2"]), None);
    assert_eq!(parse_board_args(&["a", "2", "1"]), None);
}
