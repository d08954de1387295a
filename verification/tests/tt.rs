use peras::tt::{value_from_tt, value_to_tt, TranspositionTable};
use peras::types::{mate_in, mated_in, Bound, Move, MAX_PLY, VALUE_NONE};

#[test]
fn roundtrip() {
    let mut tt = TranspositionTable::new(1);
    let key = 0x1234_5678_9ABC_DEF0u64;
    let mv = Move::new(12, 28);
    tt.store(key, 7, Bound::Exact, true, 123, -45, mv);
    let d = tt.probe(key).unwrap();
    assert_eq!(d.score, 123);
    assert_eq!(d.eval, -45);
    assert_eq!(d.depth, 7);
    assert_eq!(d.bound, Bound::Exact);
    assert!(d.is_pv);
    assert_eq!(d.mv, mv);
    assert!(tt.probe(key ^ 0xFFFF_FFFF_0000_0000).is_none());
}

#[test]
fn shallow_store_keeps_deep_entry_and_move() {
    let mut tt = TranspositionTable::new(1);
    let key = 0xABCD_EF01_2345_6789u64;
    let mv = Move::new(8, 16);
    tt.store(key, 10, Bound::Lower, false, 100, 90, mv);
    tt.store(key, 0, Bound::Upper, false, -500, -500, Move::none());
    let d = tt.probe(key).unwrap();
    assert_eq!(d.depth, 10);
    assert_eq!(d.score, 100);
    assert_eq!(d.mv, mv);
}

#[test]
fn none_eval_sentinel_survives() {
    let mut tt = TranspositionTable::new(1);
    let key = 0x0F0F_0F0F_F0F0_F0F0u64;
    tt.store(key, 3, Bound::Lower, false, 50, VALUE_NONE, Move::none());
    assert_eq!(tt.probe(key).unwrap().eval, VALUE_NONE);
}

#[test]
fn mate_scores_survive_tt() {
    for ply in 0..MAX_PLY {
        let v = mate_in(ply + 3);
        let stored = value_to_tt(v, ply);
        assert_eq!(value_from_tt(stored, ply, 0), v);
        let v = mated_in(ply + 3);
        let stored = value_to_tt(v, ply);
        assert_eq!(value_from_tt(stored, ply, 0), v);
    }
}

#[test]
fn table_is_cleared_and_ages() {
    let mut tt = TranspositionTable::new(1);
    assert_eq!(tt.size_mb(), 1);
    let key = 42;
    let mv = Move::new(1, 2);
    tt.store(key, 5, Bound::Exact, false, 7, 8, mv);
    assert_eq!(tt.probe_move(key), mv);
    let before = tt.generation();
    tt.increment_age();
    assert_ne!(tt.generation(), before);
    assert_eq!(tt.probe_move(key), mv);
    tt.penalize(key, 3);
    assert_eq!(tt.probe(key).unwrap().depth, 2);
    tt.clear();
    assert!(tt.probe(key).is_none());
    assert_eq!(tt.probe_move(key), Move::none());
    assert_eq!(tt.hashfull(), 0);
}

#[test]
fn a_full_bucket_gives_up_its_shallowest_entry() {
    let mut tt = TranspositionTable::new(1);
    let step = (tt.slots.len() / 4) as u64;
    let keys: Vec<u64> = (1..=5).map(|i| (i << 40) + step * (i << 8) + 3).collect();
    for (i, &k) in keys.iter().take(4).enumerate() {
        tt.store(k, 10 + i as i32, Bound::Exact, false, 0, 0, Move::new(1, 2));
    }
    tt.store(keys[4], 20, Bound::Exact, false, 0, 0, Move::new(3, 4));
    assert!(tt.probe(keys[0]).is_none());
    for &k in &keys[1..] {
        assert!(tt.probe(k).is_some());
    }
}
