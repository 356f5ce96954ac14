use card_game::card::{Card, Suit, Value, SUITS, VALUES};
use card_game::deck::{standard, Deck};

/// A deck of the given cards from which the first `top` have been drawn.
fn deck_with<T, const N: usize>(cards: [T; N], top: usize) -> Deck<T, N> {
    let mut deck = Deck::from(cards);
    let drawn = deck.draw_many(top).len();
    assert_eq!(drawn, top);
    deck
}

fn equal_contents<T: PartialEq>(s1: &[T], s2: &[T]) -> bool {
    if s1.len() != s2.len() {
        return false;
    }
    for i in s1 {
        if !s2.contains(i) {
            return false;
        }
    }

    return true;
}

#[test]
fn deck_from() {
    assert_eq!(Deck::from([]), deck_with::<i32, 0>([], 0));
    assert_eq!(Deck::from([1, 2, 3, 4, 5]), deck_with([1, 2, 3, 4, 5], 0));

    let deck: Deck<i32, 0> = Deck::from([]);
    assert_eq!(deck.cards(), &[]);
    assert_eq!(deck.top(), 0);
    let deck = Deck::from([1, 2, 3, 4, 5]);
    assert_eq!(deck.cards(), &[1, 2, 3, 4, 5]);
    assert_eq!(deck.top(), 0);
}

#[test]
fn standard_deck() {
    let deck = standard();
    let mut expected = vec![];
    for suit in SUITS {
        for value in VALUES {
            expected.push(Card { suit, value })
        }
    }
    assert!(equal_contents(deck.cards(), &expected));
}

#[test]
fn get_one() {
    let deck = Deck::from([1, 2, 3]);
    assert_eq!(deck.get_one(), Some(&1));

    let deck = deck_with([1, 2, 3], 1);
    assert_eq!(deck.get_one(), Some(&2));

    let deck = deck_with([1, 2, 3], 3);
    assert_eq!(deck.get_one(), None);

    let deck: Deck<i32, 0> = Deck::from([]);
    assert_eq!(deck.get_one(), None);
}

#[test]
fn get_many() {
    let deck = Deck::from([1, 2, 3]);
    assert_eq!(deck.get_many(0), Vec::new() as Vec<&i32>);
    assert_eq!(deck.get_many(1), vec![&1]);
    assert_eq!(deck.get_many(2), vec![&1, &2]);
    assert_eq!(deck.get_many(3), vec![&1, &2, &3]);
    assert_eq!(deck.get_many(4), vec![&1, &2, &3]);

    let deck = deck_with([1, 2, 3], 1);

    assert_eq!(deck.get_many(0), Vec::new() as Vec<&i32>);
    assert_eq!(deck.get_many(1), vec![&2]);
    assert_eq!(deck.get_many(2), vec![&2, &3]);
    assert_eq!(deck.get_many(3), vec![&2, &3]);

    let deck = deck_with([1, 2, 3], 3);
    assert_eq!(deck.get_many(1), Vec::new() as Vec<&i32>);

    let deck: Deck<i32, 0> = Deck::from([]);
    assert_eq!(deck.get_many(1), Vec::new() as Vec<&i32>);
}

#[test]
fn get_all() {
    let deck = Deck::from([1, 2, 3]);
    assert_eq!(deck.get_all(), vec![&1, &2, &3]);

    let deck = deck_with([1, 2, 3], 1);
    assert_eq!(deck.get_all(), vec![&2, &3]);

    let deck = deck_with([1, 2, 3], 3);
    assert_eq!(deck.get_all(), Vec::new() as Vec<&i32>);

    let deck: Deck<i32, 0> = Deck::from([]);
    assert_eq!(deck.get_all(), Vec::new() as Vec<&i32>);
}

#[test]
fn draw_one() {
    let mut deck = Deck::from([1, 2, 3]);
    assert_eq!(deck.draw_one(), Some(&1));
    assert_eq!(deck.draw_one(), Some(&2));
    assert_eq!(deck.draw_one(), Some(&3));
    assert_eq!(deck.draw_one(), None);

    let mut deck: Deck<i32, 0> = Deck::from([]);
    assert_eq!(deck.draw_one(), None);
    assert_eq!(deck.draw_one(), None);
}

#[test]
fn draw_many() {
    let mut deck = Deck::from([1, 2, 3, 4, 5, 6, 7, 8, 9, 10]);
    assert_eq!(deck.draw_many(0), Vec::new() as Vec<&i32>);
    assert_eq!(deck.draw_many(1), vec![&1]);
    assert_eq!(deck.draw_many(1), vec![&2]);
    assert_eq!(deck.draw_many(0), Vec::new() as Vec<&i32>);
    assert_eq!(deck.draw_many(3), vec![&3, &4, &5]);
    assert_eq!(deck.draw_many(10), vec![&6, &7, &8, &9, &10]);
    assert_eq!(deck.draw_many(10), Vec::new() as Vec<&i32>);
}

#[test]
fn shuffle() {
    // A large deck so there is a 1 in ~10^68 chance of shuffling to the starting position
    let orig = standard();
    let mut deck = orig.clone();
    deck.shuffle();
    for _ in 0..10 {
        assert_ne!(orig, deck);
        assert_eq!(orig.top(), deck.top());
    }

    let orig = deck_with(*orig.cards(), 20);
    let mut deck = orig.clone();

    for _ in 0..10 {
        deck.shuffle();

        assert_eq!(orig.cards()[..20], deck.cards()[..20]);
        assert_ne!(orig.cards()[20..], deck.cards()[20..]);
        assert_eq!(orig.top(), deck.top());
    }

    let orig = deck_with(*orig.cards(), 52);
    let mut deck = orig.clone();
    deck.shuffle();
    assert_eq!(orig, deck)
}

#[test]
fn reset() {
    let orig = standard();
    let mut deck = orig.clone();
    let _ = deck.draw_many(20);
    assert_ne!(deck, orig);
    deck.reset();
    assert_eq!(deck, orig);
}

#[test]
fn from_keeps_the_given_order() {
    let deck = Deck::from(["c", "a", "b", "a"]);
    assert_eq!(deck.top(), 0);
    assert!(deck.is_full());
    assert_eq!(deck.get_all(), vec![&"c", &"a", &"b", &"a"]);
    assert_eq!(deck.cards(), &["c", "a", "b", "a"]);
}

#[test]
fn single_draws_hand_out_every_element_once_in_order() {
    let elements = [7, 3, 9, 3, 1, 8];
    let mut deck = Deck::from(elements);
    for (i, element) in elements.iter().enumerate() {
        assert_eq!(deck.top(), i);
        assert_eq!(deck.draw_one(), Some(element));
    }
    assert_eq!(deck.top(), 6);
    for _ in 0..20 {
        assert_eq!(deck.draw_one(), None);
        assert_eq!(deck.top(), 6);
    }
    assert_eq!(deck.cards(), &elements);
}

#[test]
fn two_draws_come_to_one_joint_draw() {
    for k1 in 0..8 {
        for k2 in 0..8 {
            let mut split = Deck::from([10, 20, 30, 40, 50, 60]);
            let mut joint = split.clone();
            let mut first: Vec<i32> = split.draw_many(k1).into_iter().copied().collect();
            let second: Vec<i32> = split.draw_many(k2).into_iter().copied().collect();
            first.extend(second);
            let together: Vec<i32> = joint.draw_many(k1 + k2).into_iter().copied().collect();
            assert_eq!(first, together);
            assert_eq!(split, joint);
            assert_eq!(split.top(), std::cmp::min(k1 + k2, 6));
        }
    }
}

#[test]
fn draw_many_stops_at_the_end() {
    let mut deck = Deck::from([1, 2, 3]);
    assert_eq!(deck.draw_many(usize::MAX), vec![&1, &2, &3]);
    assert_eq!(deck.top(), 3);
    assert_eq!(deck.draw_many(usize::MAX), Vec::new() as Vec<&i32>);
    assert_eq!(deck.top(), 3);
}

#[test]
fn get_many_takes_any_count() {
    let deck = deck_with([1, 2, 3], 1);
    assert_eq!(deck.get_many(usize::MAX), vec![&2, &3]);
    assert_eq!(deck.get_many(usize::MAX - 1), vec![&2, &3]);
    assert_eq!(deck.top(), 1);
}

#[test]
fn peeks_leave_the_cursor() {
    let deck = deck_with([1, 2, 3, 4], 2);
    assert_eq!(deck.get_one(), Some(&3));
    assert_eq!(deck.get_one(), Some(&3));
    assert_eq!(deck.get_many(2), vec![&3, &4]);
    assert_eq!(deck.get_all(), vec![&3, &4]);
    assert_eq!(deck.top(), 2);
}

#[test]
fn is_full_means_nothing_drawn() {
    let mut deck = Deck::from([1, 2]);
    assert!(deck.is_full());
    deck.draw_one();
    assert!(!deck.is_full());
    deck.draw_one();
    assert!(!deck.is_full());
    deck.reset();
    assert!(deck.is_full());

    let empty: Deck<i32, 0> = Deck::from([]);
    assert!(empty.is_full());
}

#[test]
fn reset_brings_every_element_back() {
    let mut deck = Deck::from([5, 6, 7, 8]);
    for drawn in 0..6 {
        let _ = deck.draw_many(drawn);
        deck.reset();
        assert_eq!(deck.top(), 0);
        assert_eq!(deck.get_all(), vec![&5, &6, &7, &8]);
        deck.reset();
        assert_eq!(deck.get_all(), vec![&5, &6, &7, &8]);
    }
}

#[test]
fn shuffle_keeps_every_element() {
    let mut numbers = [0usize; 40];
    for (i, n) in numbers.iter_mut().enumerate() {
        *n = i / 2;
    }
    let mut deck = deck_with(numbers, 10);
    for _ in 0..20 {
        deck.shuffle();
        assert_eq!(deck.top(), 10);
        assert_eq!(deck.cards()[..10], numbers[..10]);
        let mut rest: Vec<usize> = deck.cards()[10..].to_vec();
        rest.sort();
        assert_eq!(rest, numbers[10..].to_vec());
        assert_eq!(deck.get_all().len(), 30);
    }
}

#[test]
fn shuffle_of_nothing_changes_nothing() {
    let mut empty: Deck<i32, 0> = Deck::from([]);
    empty.shuffle();
    assert_eq!(empty, Deck::from([]));

    let mut one = Deck::from([4]);
    one.shuffle();
    assert_eq!(one, Deck::from([4]));

    let mut last = deck_with([1, 2, 3], 2);
    last.shuffle();
    assert_eq!(last, deck_with([1, 2, 3], 2));
}

#[test]
fn standard_deck_in_order() {
    let deck = standard();
    assert_eq!(deck.top(), 0);
    let cards = deck.cards();
    assert_eq!(cards.len(), 52);
    for (k, card) in cards.iter().enumerate() {
        assert_eq!(*card, Card { suit: SUITS[k / 13], value: VALUES[k % 13] });
    }
    assert_eq!(cards[0], Card { suit: Suit::Clubs, value: Value::Two });
    assert_eq!(cards[12], Card { suit: Suit::Clubs, value: Value::Ace });
    assert_eq!(cards[13], Card { suit: Suit::Hearts, value: Value::Two });
    assert_eq!(cards[26], Card { suit: Suit::Diamonds, value: Value::Two });
    assert_eq!(cards[51], Card { suit: Suit::Spades, value: Value::Ace });
}

#[test]
fn clone_is_independent() {
    let mut deck = Deck::from([1, 2, 3]);
    let copy = deck.clone();
    deck.draw_one();
    assert_eq!(copy.top(), 0);
    assert_eq!(deck.top(), 1);
    assert_eq!(copy.cards(), deck.cards());
}

#[test]
fn two_shuffles_end_in_different_orders() {
    let orig = standard();
    let mut first = orig.clone();
    let mut second = orig.clone();
    first.shuffle();
    second.shuffle();
    assert_ne!(first, orig);
    assert_ne!(second, orig);
    assert_ne!(first, second);

    let mut again = first.clone();
    again.shuffle();
    assert_ne!(again, first);
}
