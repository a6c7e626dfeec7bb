use process_memory::utils::{Storage, Unit};

#[test]
fn test_from_bytes() {
    assert_eq!(Storage::from_bytes(0), Storage::new(0, 0, Unit::B));

    assert_eq!(Storage::from_bytes(1), Storage::new(1, 0, Unit::B));
    assert_eq!(Storage::from_bytes(512), Storage::new(512, 0, Unit::B));
    assert_eq!(Storage::from_bytes(1023), Storage::new(1023, 0, Unit::B));

    assert_eq!(Storage::from_bytes(1024), Storage::new(1, 0, Unit::KB));
    assert_eq!(
        Storage::from_bytes(1024 * 1024),
        Storage::new(1, 0, Unit::MB)
    );
    assert_eq!(
        Storage::from_bytes(1024 * 1024 * 1024),
        Storage::new(1, 0, Unit::GB)
    );
    assert_eq!(
        Storage::from_bytes(1024 * 1024 * 1024 * 1024),
        Storage::new(1, 0, Unit::TB)
    );
    assert_eq!(
        Storage::from_bytes(1024 * 1024 * 1024 * 1024 * 1024),
        Storage::new(1, 0, Unit::PB)
    );

    assert_eq!(Storage::from_bytes(1536), Storage::new(1, 512, Unit::KB));
    assert_eq!(
        Storage::from_bytes(1024 * 1024 + 512),
        Storage::new(1, 512, Unit::MB)
    );
    assert_eq!(
        Storage::from_bytes(3 * 1024 * 1024 + 256),
        Storage::new(3, 256, Unit::MB)
    );
    assert_eq!(
        Storage::from_bytes(5 * 1024 * 1024 * 1024 + 1024 * 1024),
        Storage::new(5, 1024 * 1024, Unit::GB)
    );

    assert_eq!(
        Storage::from_bytes(1024 - 1),
        Storage::new(1023, 0, Unit::B)
    );
    assert_eq!(
        Storage::from_bytes(1024 * 1024 - 1),
        Storage::new(1023, 1023, Unit::KB)
    );

    assert_eq!(
        Storage::from_bytes(10 * 1024 * 1024 * 1024 * 1024 * 1024),
        Storage::new(10, 0, Unit::PB)
    );
    assert_eq!(
        Storage::from_bytes(100 * 1024 * 1024 * 1024 * 1024 * 1024 + 512),
        Storage::new(100, 512, Unit::PB)
    );
}

#[test]
fn test_to_bytes() {
    assert_eq!(Storage::new(0, 0, Unit::B).to_bytes(), 0);
    assert_eq!(Storage::new(1, 0, Unit::B).to_bytes(), 1);
    assert_eq!(Storage::new(1023, 0, Unit::B).to_bytes(), 1023);

    assert_eq!(Storage::new(1, 0, Unit::KB).to_bytes(), 1024);
    assert_eq!(Storage::new(1, 0, Unit::MB).to_bytes(), 1024 * 1024);
    assert_eq!(Storage::new(1, 0, Unit::GB).to_bytes(), 1024 * 1024 * 1024);
    assert_eq!(
        Storage::new(1, 0, Unit::TB).to_bytes(),
        1024 * 1024 * 1024 * 1024
    );
    assert_eq!(
        Storage::new(1, 0, Unit::PB).to_bytes(),
        1024 * 1024 * 1024 * 1024 * 1024
    );

    assert_eq!(Storage::new(1, 512, Unit::KB).to_bytes(), 1536);
    assert_eq!(Storage::new(1, 512, Unit::MB).to_bytes(), 1024 * 1024 + 512);
    assert_eq!(
        Storage::new(3, 256, Unit::MB).to_bytes(),
        3 * 1024 * 1024 + 256
    );
    assert_eq!(
        Storage::new(5, 1024 * 1024, Unit::GB).to_bytes(),
        5 * 1024 * 1024 * 1024 + 1024 * 1024
    );
    assert_eq!(
        Storage::new(100, 512, Unit::PB).to_bytes(),
        100 * 1024 * 1024 * 1024 * 1024 * 1024 + 512
    );

    assert_eq!(
        Storage::new(1023, 1023, Unit::KB).to_bytes(),
        1023 * 1024 + 1023
    );
    assert_eq!(
        Storage::new(10, 0, Unit::TB).to_bytes(),
        10 * 1024 * 1024 * 1024 * 1024
    );
}

#[test]
fn test_round_trip() {
    let test_cases = vec![
        0,
        1,
        512,
        1023,
        1024,
        1025,
        1536,
        1024 * 1024 - 1,
        1024 * 1024,
        1024 * 1024 + 512,
        3 * 1024 * 1024 + 256,
        1024 * 1024 * 1024 - 1,
        1024 * 1024 * 1024,
        5 * 1024 * 1024 * 1024 + 1024 * 1024,
        1024 * 1024 * 1024 * 1024,
        10 * 1024 * 1024 * 1024 * 1024 * 1024,
        100 * 1024 * 1024 * 1024 * 1024 * 1024 + 512,
    ];

    for bytes in test_cases {
        let unit = Storage::from_bytes(bytes);
        assert_eq!(
            unit.to_bytes(),
            bytes,
            "Round trip failed for {} bytes, got {:?}",
            bytes,
            unit
        );
    }
}

#[test]
fn test_boundary_values() {
    assert_eq!(Storage::from_bytes(1023), Storage::new(1023, 0, Unit::B));
    assert_eq!(Storage::from_bytes(1024), Storage::new(1, 0, Unit::KB));
    assert_eq!(Storage::from_bytes(1025), Storage::new(1, 1, Unit::KB));

    let mb_boundary = 1024 * 1024;
    assert_eq!(
        Storage::from_bytes(mb_boundary - 1),
        Storage::new(1023, 1023, Unit::KB)
    );
    assert_eq!(
        Storage::from_bytes(mb_boundary),
        Storage::new(1, 0, Unit::MB)
    );
    assert_eq!(
        Storage::from_bytes(mb_boundary + 1),
        Storage::new(1, 1, Unit::MB)
    );

    let gb_boundary = 1024 * 1024 * 1024;
    assert_eq!(
        Storage::from_bytes(gb_boundary - 1),
        Storage::new(1023, 1023 * 1024 + 1023, Unit::MB)
    );
    assert_eq!(
        Storage::from_bytes(gb_boundary),
        Storage::new(1, 0, Unit::GB)
    );
    assert_eq!(
        Storage::from_bytes(gb_boundary + 1),
        Storage::new(1, 1, Unit::GB)
    );

    let tb_boundary = 1024_u64 * 1024 * 1024 * 1024;
    assert_eq!(
        Storage::from_bytes(tb_boundary),
        Storage::new(1, 0, Unit::TB)
    );

    let pb_boundary = 1024_u64 * 1024 * 1024 * 1024 * 1024;
    assert_eq!(
        Storage::from_bytes(pb_boundary),
        Storage::new(1, 0, Unit::PB)
    );
}

#[test]
fn zero_bytes_is_zero_b() {
    let zero = Storage::from_bytes(0);
    assert_eq!(zero.quotient(), 0);
    assert_eq!(zero.remainder(), 0);
    assert_eq!(zero.unit(), Unit::B);
}

#[test]
fn largest_value_round_trips() {
    let all = Storage::from_bytes(u64::MAX);
    assert_eq!(all, Storage::new(16383, (1 << 50) - 1, Unit::PB));
    assert_eq!(all.to_bytes(), u64::MAX);
    let exbibyte = Storage::from_bytes(1 << 60);
    assert_eq!(exbibyte, Storage::new(1024, 0, Unit::PB));
    assert_eq!(exbibyte.to_bytes(), 1 << 60);
}

#[test]
fn sum_is_the_sum_of_the_bytes() {
    let a = Storage::from_bytes(1000);
    let b = Storage::from_bytes(24);
    assert_eq!(a + b, Storage::new(1, 0, Unit::KB));
    assert_eq!((a + &b).to_bytes(), 1024);
    assert_eq!((&a + b).to_bytes(), a.to_bytes() + b.to_bytes());
    assert_eq!(&a + &b, Storage::from_bytes(1024));
    let mixed = Storage::new(3, 256, Unit::MB) + Storage::new(1, 512, Unit::KB);
    assert_eq!(mixed, Storage::new(3, 1792, Unit::MB));
}

#[test]
fn units_have_their_labels() {
    assert_eq!(Unit::B.label(), "B");
    assert_eq!(Unit::KB.label(), "KB");
    assert_eq!(Unit::MB.to_string(), "MB");
    assert_eq!(Unit::GB.to_string(), "GB");
    assert_eq!(Unit::TB.label(), "TB");
    assert_eq!(Unit::PB.to_string(), "PB");
    assert_eq!(Unit::B.shift(), 0);
    assert_eq!(Unit::PB.shift(), 50);
}

#[test]
fn fraction_digits_are_hundredths_rounded_down() {
    assert_eq!(Storage::new(1, 512, Unit::KB).fraction_digits(), 50);
    assert_eq!(Storage::new(1023, 1023, Unit::KB).fraction_digits(), 99);
    assert_eq!(Storage::new(3, 256, Unit::MB).fraction_digits(), 0);
    assert_eq!(Storage::new(5, 1024 * 1024 * 256, Unit::GB).fraction_digits(), 25);
    assert_eq!(Storage::new(7, 0, Unit::B).fraction_digits(), 0);
    assert_eq!(Storage::from_bytes(u64::MAX).fraction_digits(), 99);
    assert_eq!(Storage::new(1, 11, Unit::KB).fraction_digits(), 1);
    assert_eq!(Unit::B.bytes(), 1);
    assert_eq!(Unit::KB.bytes(), 1024);
    assert_eq!(Unit::PB.bytes(), 1 << 50);
}
