use poker_arena::seating::{bot_of_seat, seat_of_bot, Seating};

#[test]
fn seat_mapping_is_a_bijection_every_hand() {
    for n in 2..=4usize {
        for hand_no in 0..10u64 {
            let seats: Vec<usize> = (0..n).map(|bot| seat_of_bot(hand_no, bot, n)).collect();
            let mut sorted = seats.clone();
            sorted.sort_unstable();
            assert_eq!(sorted, (0..n).collect::<Vec<_>>());
            for (bot, seat) in seats.iter().enumerate() {
                assert_eq!(bot_of_seat(hand_no, *seat, n), bot);
            }
        }
    }
}

#[test]
fn bots_rotate_one_seat_per_hand() {
    assert_eq!(seat_of_bot(0, 0, 3), 0);
    assert_eq!(seat_of_bot(1, 0, 3), 1);
    assert_eq!(seat_of_bot(2, 2, 3), 1);
    assert_eq!(seat_of_bot(u64::MAX, 1, 2), 0);
    assert_eq!(bot_of_seat(5, 0, 4), 3);
}

#[test]
fn an_arrangement_rotates_as_a_whole() {
    let seating = Seating::from_arrangement(vec![2, 0, 1]);
    assert_eq!(seating.seat_of_bot(0, 0), 2);
    assert_eq!(seating.seat_of_bot(1, 0), 0);
    assert_eq!(seating.seat_of_bot(1, 2), 2);
    for r in 0..3 {
        for bot in 0..3 {
            let seat = seating.seat_of_bot(r, bot);
            assert_eq!(seating.bot_of_seat(r, seat), bot);
        }
    }
}

#[test]
fn each_bot_sits_everywhere_within_n_hands() {
    for n in 1..=5usize {
        for first in [0u64, 7, u64::MAX - 5] {
            for bot in 0..n {
                let mut seats: Vec<usize> = (0..n as u64).map(|d| seat_of_bot(first + d, bot, n)).collect();
                seats.sort_unstable();
                assert_eq!(seats, (0..n).collect::<Vec<_>>());
            }
        }
    }
}

#[test]
fn a_rotation_set_seats_every_bot_in_every_seat_once() {
    let st = Seating::from_arrangement(vec![2, 0, 3, 1]);
    for b in 0..4 {
        let mut seats: Vec<usize> = (0..4).map(|r| st.seat_of_bot(r, b)).collect();
        seats.sort();
        assert_eq!(seats, vec![0, 1, 2, 3]);
    }
    for r in 0..4 {
        for b in 0..4 {
            assert_eq!(st.bot_of_seat(r, st.seat_of_bot(r, b)), b);
        }
        for seat in 0..4 {
            assert_eq!(st.seat_of_bot(r, st.bot_of_seat(r, seat)), seat);
        }
    }
}
