use tectonicdb::aggregate::updates2candles;
use tectonicdb::candle::Candle;
use tectonicdb::update::Update;

fn plus(a: u32, b: u32) -> u32 {
    (f32::from_bits(a) + f32::from_bits(b)).to_bits()
}

fn candle(time: u32, open: f32, high: f32, low: f32, close: f32, volume: f32) -> Candle {
    Candle {
        time,
        open: open.to_bits(),
        high: high.to_bits(),
        low: low.to_bits(),
        close: close.to_bits(),
        volume: volume.to_bits(),
    }
}

fn trade(ts: u64, price: f32, size: f32) -> Update {
    Update { ts, seq: 0, is_trade: true, is_bid: false, price: price.to_bits(), size: size.to_bits() }
}

fn quote(ts: u64, price: f32, size: f32) -> Update {
    Update { ts, seq: 0, is_trade: false, is_bid: true, price: price.to_bits(), size: size.to_bits() }
}

#[test]
fn no_trades_no_candles() {
    let r = updates2candles(true, &[], plus);
    assert!(r.v.is_empty());
    assert_eq!(r.scale, 1);
    let r = updates2candles(true, &[quote(60_000, 1., 1.)], plus);
    assert!(r.v.is_empty());
}

#[test]
fn trades_of_one_minute_make_one_candle() {
    let ups = [
        trade(60_000, 10., 1.),
        quote(60_500, 50., 9.),
        trade(61_000, 12., 2.),
        trade(119_999, 9., 0.5),
    ];
    let r = updates2candles(false, &ups, plus);
    assert_eq!(r.v, vec![candle(60, 10., 12., 9., 9., 3.5)]);
    assert_eq!(r.scale, 1);
}

#[test]
fn timestamps_are_floored_to_their_minute() {
    let ups = [trade(1_518_000_059_999, 1., 1.), trade(1_518_000_060_000, 2., 1.)];
    let r = updates2candles(false, &ups, plus);
    assert_eq!(r.v, vec![candle(1_518_000_000, 1., 1., 1., 1., 1.), candle(1_518_000_060, 2., 2., 2., 2., 1.)]);
}

#[test]
fn gaps_are_filled_at_the_last_price() {
    let ups = [
        trade(60_000, 10., 1.),
        trade(65_000, 9., 0.5),
        trade(240_000, 11., 1.),
        trade(300_000, 12., 1.),
    ];
    let r = updates2candles(true, &ups, plus);
    assert_eq!(
        r.v,
        vec![
            candle(60, 10., 10., 9., 9., 1.5),
            candle(120, 9., 9., 9., 9., 0.),
            candle(180, 9., 9., 9., 9., 0.),
            candle(240, 11., 11., 11., 11., 1.),
            candle(300, 12., 12., 12., 12., 1.),
        ]
    );
}

#[test]
fn gaps_are_left_alone_when_not_asked_for() {
    let ups = [trade(60_000, 10., 1.), trade(240_000, 11., 1.)];
    let r = updates2candles(false, &ups, plus);
    assert_eq!(r.v, vec![candle(60, 10., 10., 10., 10., 1.), candle(240, 11., 11., 11., 11., 1.)]);
}

#[test]
fn minutes_before_the_first_trade_are_not_filled() {
    let ups = [trade(600_000, 10., 1.)];
    let r = updates2candles(true, &ups, plus);
    assert_eq!(r.v, vec![candle(600, 10., 10., 10., 10., 1.)]);
}

#[test]
fn a_gap_after_minute_zero_is_filled() {
    let ups = [trade(0, 10., 1.), trade(180_000, 11., 1.)];
    let r = updates2candles(true, &ups, plus);
    assert_eq!(
        r.v,
        vec![
            candle(0, 10., 10., 10., 10., 1.),
            candle(60, 10., 10., 10., 10., 0.),
            candle(120, 10., 10., 10., 10., 0.),
            candle(180, 11., 11., 11., 11., 1.),
        ]
    );
}

#[test]
fn trades_out_of_order_come_out_in_order() {
    let ups = [trade(300_000, 5., 1.), trade(60_000, 1., 1.), trade(180_000, 3., 1.)];
    let r = updates2candles(false, &ups, plus);
    assert_eq!(
        r.v,
        vec![
            candle(60, 1., 1., 1., 1., 1.),
            candle(180, 3., 3., 3., 3., 1.),
            candle(300, 5., 5., 5., 5., 1.),
        ]
    );
}

#[test]
fn a_later_gap_fill_replaces_what_stood_in_the_gap() {
    let ups = [
        trade(180_000, 3., 1.),
        trade(60_000, 1., 1.),
        trade(300_000, 5., 1.),
    ];
    let r = updates2candles(true, &ups, plus);
    assert_eq!(
        r.v,
        vec![
            candle(60, 1., 1., 1., 1., 1.),
            candle(120, 1., 1., 1., 1., 0.),
            candle(180, 1., 1., 1., 1., 0.),
            candle(240, 1., 1., 1., 1., 0.),
            candle(300, 5., 5., 5., 5., 1.),
        ]
    );
}

#[test]
fn candles_of_many_minutes_are_sorted_and_distinct() {
    let mut ups = Vec::new();
    for k in 0..500u64 {
        let minute = (k * 7919) % 1000;
        ups.push(trade(minute * 60_000 + 1_000, k as f32, 1.));
    }
    for fix in [false, true] {
        let r = updates2candles(fix, &ups, plus);
        assert!(!r.v.is_empty());
        for w in r.v.windows(2) {
            assert!(w[0].time < w[1].time);
        }
        for c in r.v.iter() {
            assert_eq!(c.time % 60, 0);
        }
    }
}

#[test]
fn volume_is_added_in_order_of_arrival() {
    let ups = [trade(0, 1., 16777216.), trade(1, 1., 1.), trade(2, 1., 1.)];
    let r = updates2candles(false, &ups, plus);
    let expected = (16777216.0f32 + 1.0) + 1.0;
    assert_eq!(f32::from_bits(r.v[0].volume), expected);
    assert_eq!(r.v[0].volume, 16777216.0f32.to_bits());
}

#[test]
fn a_price_that_is_no_number_moves_neither_high_nor_low() {
    let ups = [trade(0, 2., 1.), trade(1, f32::NAN, 1.), trade(2, 3., 1.)];
    let r = updates2candles(false, &ups, plus);
    assert_eq!(r.v, vec![candle(0, 2., 3., 2., 3., 3.)]);
}
