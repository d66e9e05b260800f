use macc_lib::blockchain::Blockchain;
use macc_lib::block::Block;
use macc_lib::difficulty::{adjusted, create, satisfies};
use macc_lib::settings::Settings;
use macc_lib::utils::mine_attempt;

#[test]
fn satisfies_orders_by_first_byte() {
    // two hashes that differ only in their first byte rank as the
    // big-endian numeric comparison says
    let mut low = [0xAAu8; 32];
    low[0] = 0x01;
    let mut high = [0xAAu8; 32];
    high[0] = 0x02;

    // the smaller value satisfies the larger taken as target, not the
    // other way round
    assert!(satisfies(&high, &low));
    assert!(!satisfies(&low, &high));

    // equality satisfies in both directions
    assert!(satisfies(&low, &low));

    // every hash satisfies the all-ones target, none but zero satisfies
    // the all-zeros target
    let max = create(0).unwrap();
    let min = create(32).unwrap();
    assert!(satisfies(&max, &low));
    assert!(!satisfies(&min, &low));
    assert!(satisfies(&min, &min));
}

#[test]
fn create_shapes_targets() {
    assert!(create(33).is_none());
    let t = create(1).unwrap();
    assert_eq!(t[0], 0x00);
    for i in 1..32 {
        assert_eq!(t[i], 0xFF);
    }
}

#[test]
fn retarget_identity_off_boundary() {
    let settings = Settings::default();
    let diff = create(3).unwrap();

    // heights that are not positive multiples of the adjustment interval
    // leave the target untouched
    let empty = Blockchain::new_empty();
    assert_eq!(empty.adjust_difficulty(diff, &settings), diff);

    let mut chain = Blockchain::new_empty();
    let mut ts: u64 = 100;
    for h in 0..7usize {
        let prev = if h == 0 {
            [0u8; 32]
        } else {
            chain.at(-1).hash(None)
        };
        let b = Block::new(ts, prev, create(0).unwrap(), h, Vec::new());
        chain.0.push(b);
        ts += 2;
    }
    // height 7 is not a multiple of 30
    assert_eq!(chain.adjust_difficulty(diff, &settings), diff);
}

#[test]
fn retarget_scales_by_observed_rate() {
    // target_time 2 s, interval 30 blocks, precision 5 digits
    let settings = Settings::default();

    // a small target whose value is exactly 1_000_000
    let mut diff = [0u8; 32];
    diff[29] = 0x0F;
    diff[30] = 0x42;
    diff[31] = 0x40;

    // blocks came twice as fast as desired: 30 seconds instead of 60, so
    // the target halves: 1_000_000 / (6_000_000 * 100_000 / 30 / 100_000)
    // = 1_000_000 / 200_000 = 5, times 100_000 = 500_000 = 0x07A120
    let faster = adjusted(&diff, 30, &settings);
    let mut expected = [0u8; 32];
    expected[29] = 0x07;
    expected[30] = 0xA1;
    expected[31] = 0x20;
    assert_eq!(faster, expected);

    // blocks exactly on schedule: the fixed-point ratio is one, so the
    // value is preserved up to the precision granularity
    let on_time = adjusted(&diff, 60, &settings);
    assert_eq!(on_time, diff);
}

#[test]
fn mine_attempt_windows() {
    let b = Block::new(1, [0u8; 32], create(0).unwrap(), 0, Vec::new());

    // against the all-ones target every nonce works: the first one is it
    let easy = create(0).unwrap();
    assert_eq!(mine_attempt(&b, &easy, 17, 10), Some(17));

    // against the all-zeros target a handful of nonces all fail
    let hard = create(32).unwrap();
    assert_eq!(mine_attempt(&b, &hard, 0, 20), None);
}
