use rsync::rolling::Rolling;

#[test]
fn test_rolling_checksum() {
    let data = b"Hello, World!";

    // Calculate checksum for window starting at position 1
    let rolling1 = Rolling::init(&data[1..]);
    let checksum1 = rolling1.checksum();

    // Calculate checksum for window starting at position 0, then roll forward
    let mut rolling2 = Rolling::init(&data[0..data.len() - 1]);
    rolling2.roll(data[0], data[data.len() - 1]);
    let checksum2 = rolling2.checksum();

    // Both should represent the same window: "ello, World!"
    assert_eq!(checksum1, checksum2);
}

#[test]
fn checksum_of_a_short_window() {
    // a = 97 + 98 + 99, b = 97 + 195 + 294
    assert_eq!(Rolling::init(b"abc").checksum(), 586 * 65536 + 294);
    assert_eq!(Rolling::init(b"").checksum(), 0);
    assert_eq!(Rolling::init(&[255]).checksum(), 255 * 65536 + 255);
}

#[test]
fn checksum_wraps_both_halves() {
    let window = vec![255u8; 1000];
    let a: u32 = 255_000 % 65536;
    let b: u32 = 127_627_500 % 65536;
    assert_eq!(Rolling::init(&window).checksum(), b * 65536 + a);
}

#[test]
fn rolling_along_a_file_agrees_with_every_window() {
    let data: Vec<u8> = (0..2000u32).map(|i| (i * i % 251) as u8).collect();
    let n = 64;
    let mut rolling = Rolling::init(&data[0..n]);
    for pos in 1..=data.len() - n {
        rolling.roll(data[pos - 1], data[pos + n - 1]);
        assert_eq!(rolling.checksum(), Rolling::init(&data[pos..pos + n]).checksum());
    }
}

#[test]
fn rolling_a_window_of_many_megabytes() {
    let mut data = vec![255u8; 17_000_001];
    data[17_000_000] = 7;
    let mut rolling = Rolling::init(&data[..17_000_000]);
    rolling.roll(255, 7);
    assert_eq!(rolling.checksum(), Rolling::init(&data[1..]).checksum());
}

#[test]
fn rolling_an_empty_window_keeps_its_length() {
    let mut rolling = Rolling::init(b"");
    rolling.roll(0, 5);
    assert_eq!(rolling.checksum(), 5 * 65536 + 5);
}
