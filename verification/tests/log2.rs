use smalloc::bits::round_up_log2;
use smalloc::bits::round_up_to_power2;

#[test]
fn test_log2() {
    let sizes: Vec<u32> = vec![
        1, 2, 5, 8, 9, 16, 20, 32, 33, 64, 65, 128, 129, 256, 257, 512, 513, 1024, 1025, 2048,
        2049, 4096, 4097,
    ];
    let logs: Vec<usize> = vec![
        0, 1, 3, 3, 4, 4, 5, 5, 6, 6, 7, 7, 8, 8, 9, 9, 10, 10, 11, 11, 12, 12, 13,
    ];
    for (i, &s) in sizes.iter().enumerate() {
        assert_eq!(round_up_log2(s), logs[i]);
    }
}

#[test]
fn round_up_to_power2_values() {
    assert_eq!(round_up_to_power2(1), 1);
    assert_eq!(round_up_to_power2(2), 2);
    assert_eq!(round_up_to_power2(3), 4);
    assert_eq!(round_up_to_power2(17), 32);
    assert_eq!(round_up_to_power2(1000), 1024);
    assert_eq!(round_up_to_power2(2048), 2048);
    assert_eq!(round_up_to_power2(0x4000_0001), 0x8000_0000);
    assert_eq!(round_up_to_power2(0x8000_0000), 0x8000_0000);
}
