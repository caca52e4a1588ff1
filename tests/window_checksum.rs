use file_delta::window_checksum::{rolling_window_checksum, RollingWindow};

#[test]
pub fn test_window_generation() {
    let rolling_win = RollingWindow::generate();
    assert_eq!(rolling_win.window_size, 0);
    assert_eq!(rolling_win.block_sum, 0);
    assert_eq!(rolling_win.all_blocks_sum, 0);
    assert_eq!(rolling_win.sha256_digest(), 0);
}

#[test]
pub fn test_rolling_window_checksum() {
    let mut rolling_win = RollingWindow::generate();
    rolling_win.add_bytes_at_end(vec!['a' as u8, 'b' as u8, 'c' as u8, 'd' as u8].as_slice());
    assert_eq!(rolling_win.window_size, 4);
    assert_eq!(20767574, rolling_win.sha256_digest());

    rolling_win.add_bytes_at_end(vec!['e' as u8, 'f' as u8, 'g' as u8, 'h' as u8].as_slice());
    assert_eq!(rolling_win.window_size, 8);
    assert_eq!(42382804, rolling_win.sha256_digest());

    rolling_win.roll_window(1, Some('i' as u8));
    assert_eq!(rolling_win.window_size, 8);
    assert_eq!(61454808, rolling_win.sha256_digest());

    rolling_win.roll_window(2, Some('j' as u8));
    rolling_win.roll_window(3, Some('k' as u8));
    rolling_win.roll_window(4, None);
    assert_eq!(rolling_win.window_size, 7);
    assert_eq!(128588100, rolling_win.sha256_digest());
}

#[test]
pub fn test_rolling_window_shift() {
    let mut rolling_window = RollingWindow::generate();

    let mut rolling_window_bytes: Vec<u8> = Vec::with_capacity(80);
    for i in 0..rolling_window_bytes.capacity() {
        rolling_window_bytes.push(i as u8);
    }
    rolling_window.add_bytes_at_end(rolling_window_bytes.as_slice());
    assert_eq!(11785356, rolling_window.sha256_digest());
}

#[test]
pub fn test_rolling_window_chunk_checksum() {
    let vec: Vec<u8> = vec![5; 20];
    assert_eq!(22250650, rolling_window_checksum(vec.as_slice()));
}

#[test]
fn rolled_window_equals_fresh_window() {
    let data: Vec<u8> = (0..200u32).map(|i| (i * 37 % 251) as u8).collect();
    let width = 64;
    let mut rolling = RollingWindow::generate();
    rolling.add_bytes_at_end(&data[..width]);
    for p in 0..(data.len() - width) {
        rolling.roll_window(data[p], Some(data[p + width]));
        let fresh = rolling_window_checksum(&data[p + 1..p + 1 + width]);
        assert_eq!(rolling.sha256_digest(), fresh);
    }
}

#[test]
fn roll_below_zero_sum_stays_consistent() {
    // 106 bytes of 200 sum to 21200, which is 9 modulo the prime: less than the byte dropped
    let window = vec![200u8; 106];
    let mut rolling = RollingWindow::generate();
    rolling.add_bytes_at_end(&window);
    assert!(rolling.block_sum < 200);
    rolling.roll_window(200, Some(7));
    let mut shifted = vec![200u8; 105];
    shifted.push(7);
    assert_eq!(rolling.sha256_digest(), rolling_window_checksum(&shifted));
}

#[test]
fn shrinking_window_counts_down() {
    let mut rolling = RollingWindow::generate();
    rolling.add_bytes_at_end(b"abc");
    rolling.roll_window(b'a', None);
    assert_eq!(rolling.window_size, 2);
    assert_eq!(rolling.block_sum, (98 + 99) as u32);
}

#[test]
fn append_wraps_length_modulo_prime() {
    let data = vec![0u8; 21191 + 5];
    let mut rolling = RollingWindow::generate();
    rolling.add_bytes_at_end(&data);
    assert_eq!(rolling.window_size, 5);
    assert_eq!(rolling.sha256_digest(), 0);
}

#[test]
fn default_is_empty_window() {
    let w = RollingWindow::default();
    assert_eq!((w.block_sum, w.all_blocks_sum, w.window_size), (0, 0, 0));
}
