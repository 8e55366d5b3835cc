use rusty_john::address::H160;
use rusty_john::address_book::weth;
use rusty_john::dex_factory::{
    get_markets_by_token, group_by_token, other_token, token_order, DexFactory, BATCH_SIZE,
};
use rusty_john::uint::U256;
use std::cmp::Ordering;

fn numbered(n: u32) -> H160 {
    let mut bytes = [0u8; 20];
    bytes[16..20].copy_from_slice(&n.to_be_bytes());
    H160 { bytes }
}

fn listing(token: u32, pair: u32) -> [H160; 3] {
    [weth(), numbered(token), numbered(pair)]
}

/// What a factory of `n` pairs answers.
fn answer(n: u32, start: U256, stop: U256) -> Vec<[H160; 3]> {
    let first = start.limbs[0] as u32;
    let last = (stop.limbs[0] as u32).min(n);
    (first..last.max(first)).map(|i| listing(i, i)).collect()
}

fn run(n: u32, limit: Option<usize>) -> (Vec<[H160; 3]>, usize) {
    let mut factory = DexFactory::new(numbered(7), limit);
    while let Some((start, stop)) = factory.next_range() {
        factory.absorb(answer(n, start, stop));
    }
    let batches = factory.batch_num();
    (factory.get_markets(), batches)
}

#[test]
fn ranges_follow_each_other() {
    let mut factory = DexFactory::new(numbered(7), None);
    assert!(factory.address() == numbered(7));
    let (start, stop) = factory.next_range().unwrap();
    assert!(start.is_zero() && stop == U256::from_u64(500));
    factory.absorb(answer(2000, start, stop));
    assert_eq!(factory.collected(), 500);
    let (start, stop) = factory.next_range().unwrap();
    assert!(start == U256::from_u64(500) && stop == U256::from_u64(1000));
    factory.absorb(Vec::new());
    assert!(factory.next_range().is_none());
}

#[test]
fn paging_collects_the_whole_list() {
    for n in [0u32, 1, 499, 500, 501, 1000, 1250] {
        let (markets, batches) = run(n, None);
        assert_eq!(markets.len(), n as usize);
        assert_eq!(batches, n as usize / BATCH_SIZE + 1);
        assert!(markets.iter().enumerate().all(|(i, m)| m[2] == numbered(i as u32)));
    }
}

#[test]
fn a_limit_cuts_the_list_at_full_batches() {
    assert_eq!(run(2000, Some(700)).0.len(), 700);
    assert_eq!(run(2000, Some(500)).0.len(), 500);
    assert_eq!(run(2000, Some(10)).0.len(), 10);
    assert_eq!(run(2000, Some(0)).0.len(), 0);
    assert_eq!(run(2000, Some(5000)).0.len(), 2000);
    // A short batch ends the paging before the limit is looked at.
    assert_eq!(run(300, Some(10)).0.len(), 300);
    assert_eq!(run(900, Some(700)).0.len(), 900);
}

#[test]
fn listings_are_grouped_by_token() {
    let listings = vec![
        listing(1, 10),
        listing(3, 11),
        [numbered(3), weth(), numbered(12)],
        [numbered(1), numbered(3), numbered(13)],
        listing(2, 14),
        listing(1, 15),
        listing(3, 16),
    ];
    let groups = group_by_token(&listings);
    assert_eq!(groups.len(), 2);
    assert!(groups[0].0 == numbered(3));
    assert!(groups[1].0 == numbered(1));
    let threes: Vec<u8> = groups[0].1.iter().map(|l| l[2].bytes[19]).collect();
    assert_eq!(threes, vec![11, 12, 16]);
    let ones: Vec<u8> = groups[1].1.iter().map(|l| l[2].bytes[19]).collect();
    assert_eq!(ones, vec![10, 15]);
}

#[test]
fn nothing_is_grouped_of_nothing() {
    assert!(group_by_token(&Vec::new()).is_empty());
    assert!(group_by_token(&vec![listing(1, 10)]).is_empty());
}

#[test]
fn factories_are_taken_together() {
    let mut first = DexFactory::new(numbered(7), None);
    first.absorb(vec![listing(1, 10), listing(2, 11)]);
    let mut second = DexFactory::new(numbered(8), None);
    second.absorb(vec![listing(2, 20), listing(3, 21)]);
    let groups = get_markets_by_token(vec![first, second]);
    assert_eq!(groups.len(), 1);
    assert!(groups[0].0 == numbered(2));
    let pairs: Vec<u8> = groups[0].1.iter().map(|l| l[2].bytes[19]).collect();
    assert_eq!(pairs, vec![11, 20]);
}

#[test]
fn the_greater_token_comes_first() {
    let weth = weth();
    assert!(other_token(&listing(5, 1), &weth) == numbered(5));
    assert!(other_token(&[numbered(5), weth, numbered(1)], &weth) == numbered(5));
    assert_eq!(token_order(&listing(5, 1), &listing(4, 1), &weth), Ordering::Less);
    assert_eq!(token_order(&listing(4, 1), &listing(5, 1), &weth), Ordering::Greater);
    assert_eq!(token_order(&listing(4, 1), &listing(4, 2), &weth), Ordering::Equal);
    assert_eq!(token_order(&listing(256, 1), &listing(255, 1), &weth), Ordering::Less);
}
