use poker_arena::ofc::{
    candidates, combinations, filler_action, random_placement, visible_boards, OfcAction, OfcBoard, OfcFiller,
    OfcPlacement, OfcTable, OfcTableEvent, PlacerTable, Row,
};

/// A card's deck index: four per rank, deuce lowest, suits c d h s.
fn card(text: &str) -> u8 {
    let mut chars = text.chars();
    let rank = "23456789TJQKA".find(chars.next().unwrap()).unwrap() as u8;
    let suit = "cdhs".find(chars.next().unwrap()).unwrap() as u8;
    rank * 4 + suit
}

fn cards(text: &str) -> Vec<u8> {
    text.split_whitespace().map(card).collect()
}

fn board(top: &str, middle: &str, bottom: &str) -> OfcBoard {
    OfcBoard { top: cards(top), middle: cards(middle), bottom: cards(bottom) }
}

fn row_of(action: &OfcAction, text: &str) -> Row {
    let c = card(text);
    action.placements.iter().find(|p| p.card == c).unwrap_or_else(|| panic!("{text} was not placed")).row
}

#[test]
fn combinations_are_lexicographic_and_complete() {
    assert_eq!(
        combinations(4, 2),
        vec![vec![0, 1], vec![0, 2], vec![0, 3], vec![1, 2], vec![1, 3], vec![2, 3]]
    );
    assert_eq!(combinations(3, 3), vec![vec![0, 1, 2]]);
    assert!(combinations(2, 3).is_empty());
}

#[test]
fn combinations_count_binomially() {
    assert_eq!(combinations(5, 0), vec![Vec::<usize>::new()]);
    assert_eq!(combinations(13, 5).len(), 1287);
    assert_eq!(combinations(6, 3).len(), 20);
}

#[test]
fn filler_takes_the_lowest_cards_and_fills_from_the_bottom() {
    let bot = OfcFiller::new("filler".to_string());
    let action = bot.place(&cards("As 2c Kd 3h"), 2, &OfcBoard::new()).unwrap();
    assert_eq!(action.placements.len(), 2);
    assert_eq!(action.discards.len(), 2);
    assert_eq!(row_of(&action, "2c"), Row::Bottom);
    assert_eq!(row_of(&action, "3h"), Row::Bottom);
    assert_eq!(action.discards, cards("Kd As"));
}

#[test]
fn filler_spills_into_middle_then_top_as_rows_fill() {
    let full_bottom = board("", "2d 3d 4d 5d", "2c 3c 4c 5c 7c");
    let bot = OfcFiller::new("filler".to_string());
    let action = bot.place(&cards("As Kd"), 2, &full_bottom).unwrap();
    assert_eq!(row_of(&action, "Kd"), Row::Middle, "middle had one slot");
    assert_eq!(row_of(&action, "As"), Row::Top);
}

#[test]
fn filler_places_a_whole_fantasyland_deal_and_discards_the_highest() {
    let dealt = cards("As Ks Qs Js Ts 9h 9d 9c 8h 7h 6h 5h 4h 3h");
    let action = filler_action(&dealt, 13, &OfcBoard::new());
    assert_eq!(action.placements.len(), 13);
    assert_eq!(action.discards, cards("As"));
    let rows: Vec<Row> = action.placements.iter().map(|p| p.row).collect();
    assert_eq!(&rows[0..5], &[Row::Bottom; 5]);
    assert_eq!(&rows[5..10], &[Row::Middle; 5]);
    assert_eq!(&rows[10..13], &[Row::Top; 3]);
    let mut seen: Vec<u8> = action.placements.iter().map(|p| p.card).collect();
    seen.extend(&action.discards);
    let mut expected = dealt.clone();
    expected.sort_unstable();
    assert_eq!(seen, expected, "every dealt card accounted for, ascending");
}

#[test]
fn board_room_never_goes_below_zero() {
    let b = board("2c 3c 4c", "2d 3d 4d 5d 6d", "");
    assert_eq!(b.free(Row::Top), 0);
    assert_eq!(b.free(Row::Middle), 0);
    assert_eq!(b.free(Row::Bottom), 5);
}


#[test]
fn candidates_enumerate_subsets_then_rows_in_order() {
    let options = candidates(&cards("As 2c"), 1, &OfcBoard::new());
    let summary: Vec<(u8, Row, Vec<u8>)> = options
        .iter()
        .map(|o| (o.placements[0].card, o.placements[0].row, o.discards.clone()))
        .collect();
    let (two, ace) = (card("2c"), card("As"));
    assert_eq!(
        summary,
        vec![
            (two, Row::Top, vec![ace]),
            (two, Row::Middle, vec![ace]),
            (two, Row::Bottom, vec![ace]),
            (ace, Row::Top, vec![two]),
            (ace, Row::Middle, vec![two]),
            (ace, Row::Bottom, vec![two]),
        ]
    );
}

#[test]
fn candidates_skip_rows_without_room() {
    let b = board("2c 3c 4c", "2d 3d 4d 5d", "");
    let options = candidates(&cards("Kh Qh 9s"), 2, &b);
    // Three subsets; per subset the nine row pairs less those putting a card
    // on top or both cards in the middle.
    assert_eq!(options.len(), 3 * 3);
    for option in &options {
        assert_eq!(option.placements.len(), 2);
        assert_eq!(option.discards.len(), 1);
        assert!(option.placements.iter().all(|p: &OfcPlacement| p.row != Row::Top));
        let middles = option.placements.iter().filter(|p| p.row == Row::Middle).count();
        assert!(middles <= 1);
    }
    assert!(candidates(&cards("Kh"), 2, &b).is_empty(), "more to place than dealt");
}


#[test]
fn a_fantasyland_board_stays_hidden_from_other_seats() {
    let boards = vec![board("As", "", ""), board("Kd", "2c", "")];
    let fantasyland = vec![None, Some(14)];
    let seen_by_0 = visible_boards(&boards, &fantasyland, 0);
    assert_eq!(seen_by_0[0].top, cards("As"));
    assert!(seen_by_0[1].top.is_empty() && seen_by_0[1].middle.is_empty());
    let seen_by_1 = visible_boards(&boards, &fantasyland, 1);
    assert_eq!(seen_by_1[1].middle, cards("2c"), "a seat always sees its own board");
    assert_eq!(seen_by_1[0].top, cards("As"));
}

/// The random OFC bot's source of draws in these tests: splitmix64.
struct Draws(u64);

impl Draws {
    fn below(&mut self, n: u64) -> u64 {
        self.0 = self.0.wrapping_add(0x9E37_79B9_7F4A_7C15);
        let mut z = self.0;
        z = (z ^ (z >> 30)).wrapping_mul(0xBF58_476D_1CE4_E5B9);
        z = (z ^ (z >> 27)).wrapping_mul(0x94D0_49BB_1331_11EB);
        (z ^ (z >> 31)) % n
    }

    /// Shuffles the deal, then picks each placed card's row among the rows
    /// with room at that moment, as the random bot draws them.
    fn place(&mut self, dealt: &[u8], place: u8, board: &OfcBoard) -> OfcAction {
        let mut order = dealt.to_vec();
        for i in (1..order.len()).rev() {
            let j = self.below(i as u64 + 1) as usize;
            order.swap(i, j);
        }
        let mut room = [board.free(Row::Top), board.free(Row::Middle), board.free(Row::Bottom)];
        let mut picks = Vec::new();
        for _ in 0..place {
            let open: Vec<usize> = (0..3).filter(|r| room[*r] > 0).collect();
            let pick = self.below(open.len() as u64);
            room[open[pick as usize]] -= 1;
            picks.push(pick);
        }
        random_placement(board, &order, place, &picks)
    }
}

#[test]
fn random_is_deterministic_for_the_same_seed_and_stays_legal() {
    let dealt = cards("As 2c Kd 3h 9s");
    let b = board("Qs", "2d 3d", "2c 3c 4c");
    let run = || {
        let mut draws = Draws(42);
        (0..50).map(|_| draws.place(&dealt, 2, &b)).collect::<Vec<_>>()
    };
    let actions = run();
    assert_eq!(actions, run());

    for action in &actions {
        assert_eq!(action.placements.len(), 2);
        assert_eq!(action.discards.len(), 3);
        let mut seen: Vec<u8> = action.placements.iter().map(|p| p.card).collect();
        seen.extend(&action.discards);
        seen.sort_unstable();
        let mut expected = dealt.clone();
        expected.sort_unstable();
        assert_eq!(seen, expected, "every dealt card must be accounted for");
    }
}

#[test]
fn random_never_places_into_a_full_row() {
    let dealt = cards("As Kd");
    let b = board("Qs Qd Qc", "2d 3d 4d 5d 7d", "");
    let mut draws = Draws(7);
    for _ in 0..100 {
        let action = draws.place(&dealt, 2, &b);
        assert!(action.placements.iter().all(|p| p.row == Row::Bottom), "only the bottom row had capacity");
    }
}

#[test]
fn random_picks_index_the_rows_still_open() {
    // Top has one slot, middle none, bottom two: the open rows are top and
    // bottom, and once top fills only bottom remains.
    let b = board("Qs Qd", "2d 3d 4d 5d 7d", "2c 3c 4c");
    let order = cards("As Kd 9h");
    let action = random_placement(&b, &order, 2, &[0, 0]);
    assert_eq!(
        action.placements,
        vec![OfcPlacement { card: card("As"), row: Row::Top }, OfcPlacement { card: card("Kd"), row: Row::Bottom }]
    );
    assert_eq!(action.discards, cards("9h"));
    let action = random_placement(&b, &order, 2, &[1, 1]);
    assert_eq!(action.placements[0].row, Row::Bottom);
    assert_eq!(action.placements[1].row, Row::Bottom);
}

#[test]
fn the_table_tracks_boards_fantasyland_and_the_cards_to_place() {
    let mut table = OfcTable::new();
    table.hand_start(7, 1, 3);
    assert_eq!(table.boards.len(), 3);
    assert_eq!(table.fantasyland, vec![None, None, None]);
    table.observe(&OfcTableEvent::Fantasyland { seat: 2, cards: 14 });
    assert_eq!(table.fantasyland, vec![None, None, Some(14)]);
    // Only this seat's deal waits to be placed.
    table.observe(&OfcTableEvent::Deal { seat: 0, cards: cards("As Kd") });
    table.observe(&OfcTableEvent::Deal { seat: 1, cards: cards("2c 3d") });
    assert_eq!(table.dealt, cards("2c 3d"));
    table.observe(&OfcTableEvent::Place {
        seat: 1,
        placements: vec![
            OfcPlacement { card: card("2c"), row: Row::Bottom },
            OfcPlacement { card: card("3d"), row: Row::Top },
        ],
    });
    assert!(table.dealt.is_empty());
    assert_eq!(table.boards[1].bottom, cards("2c"));
    assert_eq!(table.boards[1].top, cards("3d"));
    // A hidden fantasyland board stays empty; an opponent's placement lands.
    table.observe(&OfcTableEvent::Place { seat: 2, placements: vec![] });
    table.observe(&OfcTableEvent::Place { seat: 0, placements: vec![OfcPlacement { card: card("As"), row: Row::Middle }] });
    assert_eq!(table.boards[0].middle, cards("As"));
    assert!(table.boards[2].top.is_empty());
    table.observe(&OfcTableEvent::Other);
    assert_eq!(table.hand_no, 7);
}

#[test]
fn the_placer_fills_its_own_board_from_what_it_was_dealt() {
    let mut table = PlacerTable::new();
    table.hand_start(1);
    table.observe(&OfcTableEvent::Deal { seat: 0, cards: cards("Ac") });
    table.observe(&OfcTableEvent::Deal { seat: 1, cards: cards("As 2c Kd 3h") });
    assert_eq!(table.dealt, cards("As 2c Kd 3h"));
    let action = table.filler_action(2);
    assert_eq!(row_of(&action, "2c"), Row::Bottom);
    assert_eq!(row_of(&action, "3h"), Row::Bottom);
    assert_eq!(action.discards, cards("Kd As"));
    table.observe(&OfcTableEvent::Place { seat: 1, placements: action.placements.clone() });
    assert!(table.dealt.is_empty());
    assert_eq!(table.board.bottom, cards("2c 3h"));
    // Another seat's placements do not touch this board.
    table.observe(&OfcTableEvent::Place { seat: 0, placements: vec![OfcPlacement { card: card("Ac"), row: Row::Top }] });
    assert!(table.board.top.is_empty());
}

#[test]
fn combinations_count_is_the_binomial() {
    assert_eq!(combinations(5, 2).len(), 10);
    assert_eq!(combinations(13, 3).len(), 286);
    assert_eq!(combinations(4, 0).len(), 1);
    assert_eq!(combinations(3, 4).len(), 0);
}

#[test]
fn filler_places_the_lowest_cards() {
    let dealt = [40u8, 3, 17, 9, 51];
    let a = filler_action(&dealt, 3, &OfcBoard::new());
    let placed: Vec<u8> = a.placements.iter().map(|p| p.card).collect();
    assert_eq!(placed, vec![3, 9, 17]);
    assert_eq!(a.discards, vec![40, 51]);
}
