use xelis_stats::amounts::{
    coins_mined_percentage, format_block_reward, format_circulating_supply, format_max_supply,
    format_price, format_seconds, market_cap, COIN_VALUE,
};
use xelis_stats::chain::ChainInfo;
use xelis_stats::decimal::format_with_commas;
use xelis_stats::price::Price;

fn info(maximum_supply: u64, circulating_supply: u64) -> ChainInfo {
    ChainInfo {
        network: "Mainnet".to_string(),
        average_block_time: 15_000,
        block_reward: 0,
        maximum_supply,
        circulating_supply,
    }
}

/// Values of every magnitude, and those next to powers of two and of ten.
fn samples() -> Vec<u64> {
    let mut values = vec![0, 1, 499, 500, 501, 999, 1_499, 1_500, 1_501, 2_500, u64::MAX];
    for shift in 0..64 {
        let p = 1u64 << shift;
        values.extend([p - 1, p, p + 1]);
    }
    let mut ten = 1u64;
    for _ in 0..19 {
        values.extend([ten - 1, ten, ten + 1, ten / 2, ten / 2 * 3, ten / 20, ten / 20 * 3]);
        ten = ten.wrapping_mul(10);
    }
    let mut x = 0x9E37_79B9_7F4A_7C15u64;
    for i in 0..3_000u32 {
        x = x.wrapping_mul(6_364_136_223_846_793_005).wrapping_add(1_442_695_040_888_963_407);
        values.push(x >> (i % 64));
    }
    values
}

fn coins(atomic_units: u64) -> f64 {
    atomic_units as f64 / COIN_VALUE as f64
}

#[test]
fn seconds_agree_with_floating_point() {
    for ms in samples() {
        assert_eq!(format_seconds(ms), format!("{:.0}s avg", ms as f64 / 1_000.0));
    }
}

#[test]
fn rewards_agree_with_floating_point() {
    for n in samples() {
        assert_eq!(format_block_reward(n), format!("{:.4} XEL", coins(n)));
    }
}

#[test]
fn supplies_agree_with_floating_point() {
    for n in samples() {
        assert_eq!(format_max_supply(n), format!("{:.1}M XEL", coins(n) / 1_000_000.0));
        assert_eq!(format_circulating_supply(n), format!("{:.0} XEL", coins(n)));
    }
}

#[test]
fn mined_share_agrees_with_floating_point() {
    let values = samples();
    for (i, n) in values.iter().enumerate() {
        let max = values[(i * 7 + 3) % values.len()];
        let text = coins_mined_percentage(&info(max, *n));
        if max == 0 {
            assert_eq!(text, None);
        } else {
            assert_eq!(text, Some(format!("{:.2}%", *n as f64 / max as f64 * 100.0)));
        }
    }
}

fn prices() -> Vec<f64> {
    let mut prices = vec![
        0.0,
        -0.0,
        1.2345,
        -1.2345,
        0.00005,
        0.00015,
        0.5,
        2.5,
        1e-320,
        -1e-320,
        1e22,
        1e300,
        f64::MAX,
        f64::MIN,
        f64::MIN_POSITIVE,
        f64::NAN,
        -f64::NAN,
        f64::INFINITY,
        f64::NEG_INFINITY,
        0.03125,
        0.00003125,
        0.00009375,
    ];
    for x in samples() {
        prices.push(f64::from_bits(x));
        prices.push(x as f64 / 1e9);
    }
    prices
}

#[test]
fn prices_agree_with_floating_point() {
    for p in prices() {
        assert_eq!(format_price(Price { bits: p.to_bits() }), format!("${:.4}", p));
    }
}

#[test]
fn market_caps_agree_with_floating_point() {
    let supplies = samples();
    for (i, p) in prices().into_iter().enumerate() {
        for supply in [supplies[i % supplies.len()], 0, 1, 123_456_789_012_345] {
            let dollars = (coins(supply) * p).round() as u64;
            assert_eq!(
                market_cap(&info(1, supply), Some(Price { bits: p.to_bits() })),
                Some(format!("${}", format_with_commas(dollars)))
            );
        }
    }
}

#[test]
fn exact_texts() {
    assert_eq!(format_seconds(15_000), "15s avg");
    assert_eq!(format_seconds(14_500), "14s avg");
    assert_eq!(format_seconds(15_500), "16s avg");
    assert_eq!(format_seconds(14_501), "15s avg");
    assert_eq!(format_seconds(0), "0s avg");
    assert_eq!(format_block_reward(123_456_789), "1.2346 XEL");
    assert_eq!(format_max_supply(18_400_000 * COIN_VALUE), "18.4M XEL");
    assert_eq!(format_circulating_supply(250_000_000), "2 XEL");
    assert_eq!(format_circulating_supply(350_000_000), "4 XEL");
    assert_eq!(format_price(Price { bits: 1.2345f64.to_bits() }), "$1.2345");
    assert_eq!(format_price(Price { bits: f64::NAN.to_bits() }), "$NaN");
    assert_eq!(format_price(Price { bits: f64::NEG_INFINITY.to_bits() }), "$-inf");
    assert_eq!(format_price(Price { bits: (-0.0f64).to_bits() }), "$-0.0000");
}

#[test]
fn rewards_go_by_the_nearest_double() {
    // Neither amount is a double; one lies above the tie and one below it.
    assert_eq!(format_block_reward(5_000), "0.0001 XEL");
    assert_eq!(format_block_reward(15_000), "0.0001 XEL");
}

#[test]
fn mined_share() {
    assert_eq!(coins_mined_percentage(&info(0, 5)), None);
    assert_eq!(coins_mined_percentage(&info(8, 1)), Some("12.50%".to_string()));
    assert_eq!(coins_mined_percentage(&info(3, 1)), Some("33.33%".to_string()));
}

#[test]
fn market_cap_in_whole_dollars() {
    let supply = info(1, 2_469_134 * COIN_VALUE);
    let price = |p: f64| Some(Price { bits: p.to_bits() });
    assert_eq!(market_cap(&supply, None), None);
    assert_eq!(market_cap(&supply, price(0.5)), Some("$1,234,567".to_string()));
    assert_eq!(market_cap(&supply, price(-0.5)), Some("$0".to_string()));
    assert_eq!(market_cap(&supply, price(f64::NAN)), Some("$0".to_string()));
    assert_eq!(
        market_cap(&supply, price(f64::INFINITY)),
        Some("$18,446,744,073,709,551,615".to_string())
    );
    assert_eq!(market_cap(&info(1, 0), price(f64::INFINITY)), Some("$0".to_string()));
    assert_eq!(market_cap(&info(1, COIN_VALUE), price(0.5)), Some("$1".to_string()));
}

#[test]
fn a_higher_price_gives_no_lower_market_cap() {
    let amount = |info: &ChainInfo, price: f64| -> u64 {
        let text = market_cap(info, Some(Price { bits: price.to_bits() })).unwrap();
        text.replace(['$', ','], "").parse().unwrap()
    };
    let mut ordered: Vec<f64> = prices().into_iter().filter(|p| !p.is_nan()).collect();
    ordered.extend([-0.0, 0.0, f64::MIN, f64::MAX, f64::INFINITY, f64::NEG_INFINITY]);
    ordered.sort_by(|a, b| a.partial_cmp(b).unwrap());
    for circulating in [0, 1, 123_456_789, 4_600_000 * COIN_VALUE, u64::MAX] {
        let info = info(0, circulating);
        let amounts: Vec<u64> = ordered.iter().map(|p| amount(&info, *p)).collect();
        assert!(amounts.windows(2).all(|w| w[0] <= w[1]));
    }
    assert_eq!(amount(&info(0, 2 * COIN_VALUE), -0.0), 0);
    assert_eq!(amount(&info(0, 2 * COIN_VALUE), 1.25), 3);
    assert_eq!(amount(&info(0, 2 * COIN_VALUE), 1.5), 3);
    assert_eq!(amount(&info(0, 2 * COIN_VALUE), 1.75), 4);
}

#[test]
fn shown_amounts_keep_their_order() {
    let number = |text: String| -> f64 {
        let end = text.find(|c: char| c != '.' && !c.is_ascii_digit()).unwrap();
        text[..end].parse().unwrap()
    };
    let mut values = samples();
    values.sort();
    for pair in values.windows(2) {
        let (m, n) = (pair[0], pair[1]);
        assert!(number(format_seconds(m)) <= number(format_seconds(n)));
        assert!(number(format_block_reward(m)) <= number(format_block_reward(n)));
        assert!(number(format_max_supply(m)) <= number(format_max_supply(n)));
        assert!(number(format_circulating_supply(m)) <= number(format_circulating_supply(n)));
        if n > 0 {
            assert!(number(coins_mined_percentage(&info(n, m)).unwrap()) <= 100.0);
            assert_eq!(coins_mined_percentage(&info(n, n)).unwrap(), "100.00%");
        }
    }
    let price = Some(Price { bits: 0.07f64.to_bits() });
    assert_eq!(market_cap(&info(0, 100 * COIN_VALUE), price).unwrap(), "$7");
    assert_eq!(market_cap(&info(0, 108 * COIN_VALUE), price).unwrap(), "$8");
}
