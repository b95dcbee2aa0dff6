use tectonicdb::candle::Candle;
use tectonicdb::ranges::ranges;
use tectonicdb::series::Candles;

fn plus(a: u32, b: u32) -> u32 {
    (f32::from_bits(a) + f32::from_bits(b)).to_bits()
}

fn show(bits: u32) -> String {
    format!("{}", f32::from_bits(bits))
}

fn candle(time: u32, open: f32, high: f32, low: f32, close: f32, volume: f32) -> Candle {
    Candle {
        time,
        open: open.to_bits(),
        high: high.to_bits(),
        low: low.to_bits(),
        close: close.to_bits(),
        volume: volume.to_bits(),
    }
}

#[test]
fn test_candle_to_csv() {
    let inp = candle(0, 0., 0., 0., 0., 0.);
    let target = "0,0,0,0,0,0";
    assert_eq!(inp.to_csv(&show), target);
}

#[test]
fn test_candle_ord() {
    let c1 = candle(0, 10., 10., 10., 10., 10.);
    let c2 = candle(10, 0., 0., 0., 0., 0.);

    assert!(c1 < c2);
}

#[test]
fn test_candle_snap_to_grid() {
    let mut v = Vec::new();
    for i in 30..121 {
        v.push(candle(60 * i, 0., 2., 0., 1., 1.));
    }

    let candles = Candles::new(v, 1);

    assert_eq!(
        Candles { v: vec![candle(1800, 0., 2., 0., 1., 60.)], scale: 60 },
        candles.rebin(true, 60, plus).unwrap()
    );
}

#[test]
fn test_create_new_candles() {
    assert_eq!(Candles::new(vec![], 1), Candles { v: vec![], scale: 1 });
}

#[test]
fn test_fix_missing_candles() {
    let mut v = Vec::new();
    for i in 30..121 {
        if i >= 50 && i <= 60 {
            continue;
        }

        v.push(candle(60 * i, 0., 2., 0., 1., 1.));
    }
    let mut candles = Candles::new(v, 1);

    assert_eq!(
        vec![3000, 3060, 3120, 3180, 3240, 3300, 3360, 3420, 3480, 3540, 3600],
        candles.missing_epochs()
    );
    assert_eq!(vec![(3000, 3600)], candles.missing_ranges());
    candles.insert_continuation_candles();
    assert_eq!(Vec::<u32>::new(), candles.missing_epochs());
    assert_eq!(Vec::<(u32, u32)>::new(), candles.missing_ranges());
}

#[test]
fn test_ranges() {
    let v: Vec<u32> = vec![60, 120, 180, 600, 660, 720];
    let result = ranges(&v);
    let shouldbe: Vec<(u32, u32)> = vec![(60, 180), (600, 720)];
    assert_eq!(shouldbe, result);

    let v: Vec<u32> = vec![0, 60, 120, 180, 240, 600, 660, 720];
    let result = ranges(&v);
    let shouldbe: Vec<(u32, u32)> = vec![(0, 240), (600, 720)];
    assert_eq!(shouldbe, result);
}

#[test]
fn test_must_be_sequential() {
    let mut candles: Vec<Candle> = Vec::new();
    for i in 1..10 {
        let j = i * 60;
        candles.push(candle(j, 0., 0., 0., 0., 0.));
    }

    let c = Candles { v: candles.clone(), scale: 1 };
    assert!(c._test_epochs_must_be_sequential());

    candles.push(candle(10000, 0., 0., 0., 0., 0.));
    let g = Candles { v: candles, scale: 1 };
    assert!(!g._test_epochs_must_be_sequential());
}

#[test]
fn test_rebin() {
    let mut candles: Vec<Candle> = Vec::new();
    let to_scale: usize = 5;
    let upto: usize = 5;
    for i in 1..(upto + 1) {
        candles.push(candle(i as u32 * 60, 0., 0., 0., 0., 0.));
    }

    let c = Candles { v: candles.clone(), scale: 1 };
    println!("{:?}", c);
    let rebinned = c.rebin(false, to_scale as u16, plus).unwrap();
    println!("{:?}", rebinned);
    assert_eq!(rebinned.scale, to_scale as u16);
    assert_eq!(rebinned.v.len(), upto / to_scale);
}

#[test]
fn should_have_right_attr() {
    let mut candles: Vec<Candle> = Vec::new();
    let to_scale: usize = 5;
    let upto: usize = 5;
    for i in 1..(upto + 1) {
        candles.push(candle(
            i as u32 * 60,
            100. * i as f32,
            i as f32,
            i as f32,
            100. * i as f32,
            i as f32,
        ));
    }

    let c = Candles { v: candles.clone(), scale: 1 };
    println!("{:?}", c);
    let rebinned = c.rebin(false, to_scale as u16, plus).unwrap();
    println!("{:?}", rebinned);
    assert_eq!(rebinned.scale, to_scale as u16);
    assert_eq!(rebinned.v.len(), upto / to_scale);

    let mut i = 1;
    for bin in rebinned.v.iter() {
        println!("{:?}", bin);
        assert_eq!(f32::from_bits(bin.high), (i * to_scale) as f32);
        assert_eq!(f32::from_bits(bin.open), (100 * (i - 1) * to_scale + 100) as f32);
        assert_eq!(f32::from_bits(bin.close), 100. * (i * to_scale) as f32);
        assert_eq!(
            f32::from_bits(bin.volume),
            (1 + (i - 1) * to_scale..(i * to_scale + 1)).fold(0, |a, b| a + b) as f32
        );
        i += 1;
    }
}

#[test]
fn ranges_of_nothing_and_of_one() {
    assert_eq!(ranges(&vec![]), Vec::<(u32, u32)>::new());
    assert_eq!(ranges(&vec![4200]), vec![(4200, 4200)]);
}

#[test]
fn ranges_split_where_a_minute_is_skipped() {
    let v: Vec<u32> = vec![60, 180, 240, 420];
    assert_eq!(ranges(&v), vec![(60, 60), (180, 240), (420, 420)]);
}

#[test]
fn ranges_keep_the_seconds_of_the_first_epoch() {
    let v: Vec<u32> = vec![90, 150, 210];
    assert_eq!(ranges(&v), vec![(90, 210)]);
}

#[test]
fn ranges_hold_exactly_the_listed_epochs() {
    let v: Vec<u32> = vec![300, 360, 420, 900, 1200, 1260];
    let rs = ranges(&v);
    for x in 0..1500u32 {
        let covered = rs.iter().any(|&(s, e)| s <= x && x <= e && (x - s) % 60 == 0);
        assert_eq!(covered, v.contains(&x), "epoch {}", x);
    }
}

#[test]
fn series_csv_has_one_line_per_candle() {
    let c = Candles {
        v: vec![candle(60, 1.5, 2.25, 0.5, 2., 10.), candle(120, 2., 3., 2., 2.5, 0.125)],
        scale: 1,
    };
    assert_eq!(c.to_csv(show), "60,1.5,2.25,0.5,2,10\n120,2,3,2,2.5,0.125");
}

#[test]
fn series_csv_of_nothing_is_empty() {
    assert_eq!(Candles::new(vec![], 1).to_csv(show), "");
}

#[test]
fn csv_fields_read_back_as_written() {
    let v = vec![
        candle(4294967295, 0.1, 1e10, -3.5, 7.25, 0.),
        candle(0, 123.456, 1e-7, 2., 2., 99.5),
    ];
    let text = Candles { v: v.clone(), scale: 1 }.to_csv(show);
    let lines: Vec<&str> = text.split('\n').collect();
    assert_eq!(lines.len(), v.len());
    for (line, c) in lines.iter().zip(v.iter()) {
        let fields: Vec<&str> = line.split(',').collect();
        assert_eq!(fields.len(), 6);
        assert_eq!(fields[0].parse::<u32>().unwrap(), c.time);
        assert_eq!(fields[1].parse::<f32>().unwrap(), f32::from_bits(c.open));
        assert_eq!(fields[2].parse::<f32>().unwrap(), f32::from_bits(c.high));
        assert_eq!(fields[3].parse::<f32>().unwrap(), f32::from_bits(c.low));
        assert_eq!(fields[4].parse::<f32>().unwrap(), f32::from_bits(c.close));
        assert_eq!(fields[5].parse::<f32>().unwrap(), f32::from_bits(c.volume));
    }
}

#[test]
fn sequential_counts_steps_of_the_scale() {
    let v = vec![candle(600, 0., 0., 0., 0., 0.), candle(900, 0., 0., 0., 0., 0.)];
    assert!(Candles { v: v.clone(), scale: 5 }._test_epochs_must_be_sequential());
    assert!(!Candles { v, scale: 1 }._test_epochs_must_be_sequential());
    assert!(Candles::new(vec![], 1)._test_epochs_must_be_sequential());
}

#[test]
fn missing_epochs_follow_the_scale() {
    let v = vec![
        candle(300, 0., 0., 0., 0., 0.),
        candle(600, 0., 0., 0., 0., 0.),
        candle(1500, 0., 0., 0., 0., 0.),
    ];
    let c = Candles { v, scale: 5 };
    assert_eq!(c.missing_epochs(), vec![900, 1200]);
    assert_eq!(c.missing_ranges(), vec![(900, 900), (1200, 1200)]);
}

#[test]
fn missing_epochs_and_candle_times_tile_the_grid() {
    let times = [120u32, 180, 360, 420, 600, 900];
    let v: Vec<Candle> = times.iter().map(|&t| candle(t, 0., 0., 0., 0., 0.)).collect();
    let c = Candles { v, scale: 1 };
    let missing = c.missing_epochs();
    assert_eq!(missing, vec![240, 300, 480, 540, 660, 720, 780, 840]);
    let mut t = 120;
    while t < 900 {
        assert!(missing.contains(&t) != times.contains(&t));
        t += 60;
    }
    for m in missing.iter() {
        assert!(!times.contains(m));
    }
}

#[test]
fn missing_epochs_of_one_candle_are_none() {
    let c = Candles { v: vec![candle(60, 0., 0., 0., 0., 0.)], scale: 1 };
    assert_eq!(c.missing_epochs(), Vec::<u32>::new());
}

#[test]
fn continuation_candles_are_flat_at_the_close_before_the_gap() {
    let mut c = Candles {
        v: vec![
            candle(60, 1., 2., 0.5, 1.5, 3.),
            candle(120, 1.5, 4., 1., 3.5, 2.),
            candle(300, 3., 3., 3., 3., 1.),
            candle(360, 3., 5., 3., 4.5, 1.),
            candle(480, 4., 4., 4., 4., 1.),
        ],
        scale: 1,
    };
    c.insert_continuation_candles();
    assert_eq!(
        c.v,
        vec![
            candle(180, 3.5, 3.5, 3.5, 3.5, 0.),
            candle(240, 3.5, 3.5, 3.5, 3.5, 0.),
            candle(420, 4.5, 4.5, 4.5, 4.5, 0.),
        ]
    );
    assert_eq!(c.scale, 1);
}

#[test]
fn continuation_candles_of_a_series_without_gaps_are_none() {
    let mut c = Candles {
        v: vec![candle(60, 1., 1., 1., 1., 1.), candle(120, 1., 1., 1., 1., 1.)],
        scale: 1,
    };
    c.insert_continuation_candles();
    assert!(c.v.is_empty());
    let mut e = Candles::new(vec![], 1);
    e.insert_continuation_candles();
    assert!(e.v.is_empty());
}

#[test]
fn rebin_refuses_a_finer_scale() {
    let c = Candles { v: vec![candle(300, 0., 0., 0., 0., 0.)], scale: 5 };
    assert_eq!(c.rebin(false, 1, plus), None);
}

#[test]
fn rebin_to_the_same_scale_gives_the_series_back() {
    let v = vec![candle(60, 1., 2., 0.5, 1.5, 3.), candle(120, 1.5, 4., 1., 3.5, 2.)];
    let c = Candles { v: v.clone(), scale: 1 };
    assert_eq!(c.rebin(false, 1, plus), Some(Candles { v: v.clone(), scale: 1 }));
    let c = Candles { v: v.clone(), scale: 1 };
    assert_eq!(c.rebin(true, 1, plus), Some(Candles { v, scale: 1 }));
}

#[test]
fn rebin_merges_each_full_group() {
    let v = vec![
        candle(60, 10., 11., 9., 10.5, 1.),
        candle(120, 10.5, 14., 10., 12., 2.),
        candle(180, 12., 12.5, 8., 9., 0.5),
        candle(240, 9., 9.5, 7., 7.5, 4.),
        candle(300, 7.5, 20., 7.5, 19., 1.),
        candle(360, 19., 19., 6., 6.5, 0.25),
        candle(420, 6.5, 7., 6., 7., 1.),
    ];
    let c = Candles { v, scale: 1 };
    assert!(c.rebin_is_consistent(false, 3));
    let r = c.rebin(false, 3, plus).unwrap();
    assert_eq!(
        r,
        Candles {
            v: vec![candle(60, 10., 14., 8., 9., 3.5), candle(240, 9., 20., 6., 6.5, 5.25)],
            scale: 3,
        }
    );
}

#[test]
fn rebin_groups_must_start_the_new_scale_apart() {
    let five_minutes: Vec<Candle> =
        (0..20).map(|k| candle(600 + 300 * k, 1., 1., 1., 1., 1.)).collect();
    let two_groups = Candles { v: five_minutes.clone(), scale: 5 };
    assert!(!two_groups.rebin_is_consistent(false, 10));
    assert!(!two_groups.rebin_is_consistent(true, 10));

    let one_group = Candles { v: five_minutes[..10].to_vec(), scale: 5 };
    assert!(one_group.rebin_is_consistent(false, 10));
    assert_eq!(
        one_group.rebin(false, 10, plus),
        Some(Candles { v: vec![candle(600, 1., 1., 1., 1., 10.)], scale: 10 })
    );
}

#[test]
fn rebin_alignment_looks_at_the_series_own_scale() {
    let off_grid = Candles {
        v: vec![candle(90, 1., 1., 1., 1., 1.), candle(150, 2., 2., 2., 2., 1.)],
        scale: 1,
    };
    assert!(off_grid.rebin_is_consistent(false, 2));
    assert!(!off_grid.rebin_is_consistent(true, 2));
    assert_eq!(
        off_grid.rebin(false, 2, plus),
        Some(Candles { v: vec![candle(90, 1., 2., 1., 2., 2.)], scale: 2 })
    );

    let on_own_grid = Candles {
        v: vec![candle(300, 1., 1., 1., 1., 1.), candle(600, 2., 2., 2., 2., 1.)],
        scale: 5,
    };
    assert!(on_own_grid.rebin_is_consistent(true, 7));
    assert_eq!(on_own_grid.rebin(true, 7, plus), Some(Candles { v: vec![], scale: 7 }));
}

#[test]
fn rebin_skips_up_to_the_first_aligned_candle() {
    let c = Candles {
        v: vec![
            candle(30, 1., 1., 1., 1., 1.),
            candle(60, 2., 2., 2., 2., 1.),
            candle(120, 3., 3., 3., 3., 1.),
            candle(180, 4., 4., 4., 4., 1.),
            candle(240, 5., 5., 5., 5., 1.),
        ],
        scale: 1,
    };
    assert!(c.rebin_is_consistent(true, 2));
    assert_eq!(
        c.rebin(true, 2, plus),
        Some(Candles {
            v: vec![candle(60, 2., 3., 2., 3., 2.), candle(180, 4., 5., 4., 5., 2.)],
            scale: 2,
        })
    );
}

#[test]
fn rebin_of_nothing_is_nothing() {
    let c = Candles::new(vec![], 1);
    assert!(c.rebin_is_consistent(true, 5));
    assert_eq!(c.rebin(true, 5, plus), Some(Candles { v: vec![], scale: 5 }));
}

#[test]
fn flat_candle_has_no_volume() {
    assert_eq!(Candle::flat(120, 2.5f32.to_bits()), candle(120, 2.5, 2.5, 2.5, 2.5, 0.));
}
