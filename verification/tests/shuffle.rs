use simulations::riffle_shuffle::SAMPLE_ONE;
use simulations::{find_break, riffle_shuffle, shuffle_with_samples, Deck};

#[test]
fn test_basic_shuffle() {
    let deck = vec![1, 2, 3, 4, 5, 6, 7, 8, 9, 10];
    // Fixed-point samples for 0.0, 0.1, 0.2, 0.3, 0.4, 0.51, 0.61, 0.71,
    // 0.81, 0.91.
    let samples: Vec<u64> = vec![
        0, 100_000, 200_000, 300_000, 400_000, 510_000, 610_000, 710_000, 810_000, 910_000,
    ];
    assert_eq!(deck.len(), samples.len());

    assert_eq!(
        shuffle_with_samples(&deck, samples),
        vec![1, 6, 2, 7, 3, 8, 4, 9, 5, 10]
    );

    // What if there's no break point?  Samples for 0.0, 0.05, 0.06, 0.07,
    // 0.08, 0.09, 0.10, 0.11, 0.12, 0.13.
    assert_eq!(
        shuffle_with_samples(
            &deck,
            vec![0, 50_000, 60_000, 70_000, 80_000, 90_000, 100_000, 110_000, 120_000, 130_000]
        ),
        vec![1, 2, 3, 4, 5, 6, 7, 8, 9, 10]
    );
}

#[test]
fn test_find_break() {
    assert_eq!(None, find_break(&vec![0, 1, 2, 3, 4, 5, 6]));
    assert_eq!(Some(4), find_break(&vec![0, 2, 4, 6, 1, 3, 5]));
    assert_eq!(Some(5), find_break(&vec![0, 2, 4, 6, 8, 1]));
    assert_eq!(Some(1), find_break(&vec![1, 0, 1, 2, 3]));

    // Tests with equal values.
    assert_eq!(None, find_break(&vec![0, 2, 2, 3, 5, 7]));
    assert_eq!(Some(3), find_break(&vec![0, 2, 2, 1, 5, 7]));
    assert_eq!(Some(4), find_break(&vec![0, 2, 4, 6, 2, 4, 6]));
}

#[test]
fn shuffle_preserves_multiset() {
    let deck: Vec<u32> = (0..100).collect();
    let shuffled = riffle_shuffle(&deck);
    assert_eq!(shuffled.len(), deck.len());
    let mut sorted_shuffled = shuffled.clone();
    sorted_shuffled.sort();
    let mut sorted_deck = deck.clone();
    sorted_deck.sort();
    assert_eq!(sorted_shuffled, sorted_deck);
}

#[test]
fn shuffle_preserves_multiset_with_duplicates() {
    let deck: Vec<u8> = vec![5, 5, 5, 1, 1, 9, 9, 9, 9, 2];
    let shuffled = riffle_shuffle(&deck);
    let mut sorted_shuffled = shuffled.clone();
    sorted_shuffled.sort();
    assert_eq!(sorted_shuffled, vec![1, 1, 2, 5, 5, 5, 9, 9, 9, 9]);
}

#[test]
fn shuffle_identity_on_trivial_inputs() {
    let empty: Vec<i32> = vec![];
    assert_eq!(riffle_shuffle(&empty), Vec::<i32>::new());

    let single = vec![42];
    assert_eq!(riffle_shuffle(&single), vec![42]);
}

#[test]
fn shuffle_with_sorted_half_split_interleaves() {
    // Samples at 0.2, 0.4, 0.6, 0.8: two cards fall in each packet, and
    // the packets interleave by the reduced values 0.4, 0.8, 0.2, 0.6.
    let deck = vec![10, 20, 30, 40];
    let samples = vec![200_000, 400_000, 600_000, 800_000];
    assert_eq!(shuffle_with_samples(&deck, samples), vec![30, 10, 40, 20]);
}

#[test]
fn shuffle_tie_prefers_first_run() {
    // Reduced values are 0.2, 0.4 for the first run and 0.2, 0.4 for the
    // second: every comparison ties, so the stable merge keeps the first
    // run's cards ahead of their twins.
    let deck = vec![1, 2, 3, 4];
    let samples = vec![100_000, 200_000, 600_000, 700_000];
    assert_eq!(shuffle_with_samples(&deck, samples), vec![1, 3, 2, 4]);
}

#[test]
fn shuffle_accepts_full_range_samples() {
    // A sample of exactly one reduces to zero after doubling.
    let deck = vec![7, 8];
    let samples = vec![SAMPLE_ONE, SAMPLE_ONE];
    let shuffled = shuffle_with_samples(&deck, samples);
    let mut sorted = shuffled.clone();
    sorted.sort();
    assert_eq!(sorted, vec![7, 8]);
}

#[test]
fn deck_new_is_ordered() {
    let deck = Deck::new();
    assert_eq!(deck.0.len(), 52);
    for (i, card) in deck.0.iter().enumerate() {
        assert_eq!(*card as usize, i + 1);
    }
}

#[test]
fn deck_shuffles_compose() {
    let mut deck = Deck::new();
    deck.riffle_shuffle();
    deck.riffle_shuffle();
    assert_eq!(deck.0.len(), 52);
    let mut sorted = deck.0.clone();
    sorted.sort();
    let expected: Vec<u8> = (1..53).collect();
    assert_eq!(sorted, expected);
}
