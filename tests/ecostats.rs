use egregoria::economy::{
    level_freq, EcoStats, ItemHistories, ItemHistory, ItemHistoryLevel, ItemID, Trade, TradeTarget,
    HISTORY_SIZE, LEVEL_COUNT,
};

const A: ItemID = ItemID(7);
const B: ItemID = ItemID(3);

fn trade(kind: ItemID, qty: i32, buyer: TradeTarget, seller: TradeTarget) -> Trade {
    Trade { kind, qty, buyer, seller }
}

fn cell(h: &ItemHistories, id: ItemID, level: usize, k: usize) -> u32 {
    let v = h.iter_histories(level);
    let e = v.iter().find(|(i, _)| *i == id).expect("known id");
    e.1.past_ring[k]
}

fn all_cells(h: &ItemHistories) -> Vec<u32> {
    let mut out = vec![];
    for l in 0..LEVEL_COUNT {
        for (_, lvl) in h.iter_histories(l) {
            out.extend_from_slice(&lvl.past_ring);
        }
    }
    out
}

#[test]
fn history_is_not_zero() {
    assert!(HISTORY_SIZE > 0);
}

#[test]
fn routing_to_exports() {
    let mut s = EcoStats::new(&[A]);
    s.advance(0, &[]);
    let imports_before = all_cells(&s.imports);
    let internal_before = all_cells(&s.internal_trade);
    s.advance(1, &[trade(A, 5, TradeTarget::ExternalTrade, TradeTarget::Internal(1))]);
    let c = s.exports.cursors();
    for l in 0..LEVEL_COUNT {
        assert_eq!(cell(&s.exports, A, l, c[l]), 5);
    }
    assert_eq!(all_cells(&s.imports), imports_before);
    assert_eq!(all_cells(&s.internal_trade), internal_before);
}

#[test]
fn routing_to_imports_and_internal() {
    let mut s = EcoStats::new(&[A]);
    s.advance(1, &[
        trade(A, 4, TradeTarget::Internal(1), TradeTarget::ExternalTrade),
        trade(A, 6, TradeTarget::Internal(1), TradeTarget::Internal(2)),
        trade(A, 9, TradeTarget::ExternalTrade, TradeTarget::ExternalTrade),
    ]);
    assert_eq!(cell(&s.imports, A, 0, 0), 4);
    assert_eq!(cell(&s.internal_trade, A, 0, 0), 6);
    assert_eq!(cell(&s.exports, A, 0, 0), 9);
    assert_eq!(all_cells(&s.imports).iter().map(|x| *x as u64).sum::<u64>(), 4 * LEVEL_COUNT as u64);
}

#[test]
fn non_positive_trades_ignored() {
    let mut s = EcoStats::new(&[A]);
    s.advance(1, &[
        trade(A, 0, TradeTarget::ExternalTrade, TradeTarget::Internal(1)),
        trade(A, -3, TradeTarget::ExternalTrade, TradeTarget::Internal(1)),
    ]);
    assert!(all_cells(&s.exports).iter().all(|x| *x == 0));
    assert!(all_cells(&s.imports).iter().all(|x| *x == 0));
    assert!(all_cells(&s.internal_trade).iter().all(|x| *x == 0));
}

#[test]
fn cursor_cadence() {
    let mut s = EcoStats::new(&[A]);
    s.advance(2, &[]);
    assert_eq!(s.exports.cursors(), [1, 0, 0, 0, 0, 0]);
    s.advance(25, &[]);
    assert_eq!(s.exports.cursors(), [1, 1, 0, 0, 0, 0]);
    s.advance(0, &[]);
    assert_eq!(s.imports.cursors(), [2, 2, 1, 1, 1, 1]);
}

#[test]
fn cursors_wrap_below_history_size() {
    let mut s = EcoStats::new(&[A]);
    for t in 0..(2 * HISTORY_SIZE as u32 + 5) {
        s.advance(t * 2, &[]);
        for c in s.internal_trade.cursors() {
            assert!(c < HISTORY_SIZE);
        }
    }
    assert_eq!(s.exports.cursors()[0], (2 * HISTORY_SIZE + 5) % HISTORY_SIZE);
}

#[test]
fn saturating_add_at_every_level() {
    let mut s = EcoStats::new(&[A]);
    s.advance(1, &[
        trade(A, i32::MAX, TradeTarget::ExternalTrade, TradeTarget::Internal(1)),
        trade(A, i32::MAX, TradeTarget::ExternalTrade, TradeTarget::Internal(1)),
    ]);
    assert_eq!(cell(&s.exports, A, 0, 0), u32::MAX - 1);
    s.advance(1, &[trade(A, 10, TradeTarget::ExternalTrade, TradeTarget::Internal(1))]);
    for l in 0..LEVEL_COUNT {
        assert_eq!(cell(&s.exports, A, l, 0), u32::MAX);
    }
}

#[test]
fn saturating_from_restored_cell() {
    let mut h = ItemHistory::default();
    h.levels[0].past_ring[3] = u32::MAX - 1;
    let ex = ItemHistories::from_parts(vec![(A, h)], [3, 0, 0, 0, 0, 0]).unwrap();
    let im = ItemHistories::new(&[A]);
    let it = ItemHistories::new(&[A]);
    let mut s = EcoStats::from_sets(ex, im, it).unwrap();
    s.advance(1, &[trade(A, 10, TradeTarget::ExternalTrade, TradeTarget::Internal(1))]);
    assert_eq!(cell(&s.exports, A, 0, 3), u32::MAX);
    assert_eq!(cell(&s.exports, A, 1, 0), 10);
}

#[test]
fn iteration_in_ascending_id_order() {
    let s = ItemHistories::new(&[ItemID(9), A, B, ItemID(1), A]);
    let ids: Vec<ItemID> = s.iter_histories(2).iter().map(|(i, _)| *i).collect();
    assert_eq!(ids, vec![ItemID(1), B, A, ItemID(9)]);
    assert!(s.iter_histories(LEVEL_COUNT).is_empty());
}

#[test]
fn tick_without_trades_keeps_cells() {
    let mut s = EcoStats::new(&[A, B]);
    s.advance(1, &[trade(B, 8, TradeTarget::Internal(1), TradeTarget::Internal(2))]);
    let before = all_cells(&s.internal_trade);
    s.advance(3, &[]);
    assert_eq!(all_cells(&s.internal_trade), before);
    assert_eq!(s.internal_trade.cursors(), [0, 0, 0, 0, 0, 0]);
}

#[test]
fn landing_bin_is_cleared() {
    let mut h = ItemHistory::default();
    h.levels[0].past_ring[1] = 42;
    h.levels[1].past_ring[1] = 17;
    let mut s = ItemHistories::from_parts(vec![(A, h)], [0; 6]).unwrap();
    s.advance(2);
    assert_eq!(cell(&s, A, 0, 1), 0);
    assert_eq!(cell(&s, A, 1, 1), 17);
}

#[test]
fn handle_trade_adds_to_current_bins() {
    let mut s = ItemHistories::new(&[A, B]);
    s.advance(250);
    s.handle_trade(&trade(B, 12, TradeTarget::ExternalTrade, TradeTarget::ExternalTrade));
    assert_eq!(s.cursors(), [1, 1, 1, 0, 0, 0]);
    assert_eq!(cell(&s, B, 0, 1), 12);
    assert_eq!(cell(&s, B, 3, 0), 12);
    assert_eq!(cell(&s, A, 0, 1), 0);
    s.handle_trade(&trade(B, -12, TradeTarget::ExternalTrade, TradeTarget::ExternalTrade));
    assert_eq!(cell(&s, B, 0, 1), 12);
}

#[test]
fn level_frequencies() {
    let f: Vec<u32> = (0..LEVEL_COUNT).map(level_freq).collect();
    assert_eq!(f, vec![2, 25, 250, 1500, 15000, 75000]);
    assert_eq!(ItemHistoryLevel::default().past_ring, [0; HISTORY_SIZE]);
}

#[test]
fn restored_parts_are_checked() {
    let h = ItemHistory::default();
    assert!(ItemHistories::from_parts(vec![(A, h), (B, h)], [0; 6]).is_none());
    assert!(ItemHistories::from_parts(vec![(A, h), (A, h)], [0; 6]).is_none());
    assert!(ItemHistories::from_parts(vec![(B, h)], [0, 0, HISTORY_SIZE, 0, 0, 0]).is_none());
    assert!(ItemHistories::from_parts(vec![(A, h), (B, h)].into_iter().rev().collect(), [0; 6]).is_some());
    let a = ItemHistories::new(&[A]);
    let b = ItemHistories::new(&[B]);
    let c = ItemHistories::new(&[A]);
    assert!(EcoStats::from_sets(a, b, c).is_none());
}
