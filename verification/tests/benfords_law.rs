use practice_programs::benfords_law::record_leading_digit;

#[test]
fn record_leading_digit_counts_each_digit() {
    let mut stats: Vec<u32> = vec![0; 9];
    for digit in [1, 1, 9, 3, 1] {
        record_leading_digit(&mut stats, digit);
    }
    assert_eq!(stats, vec![3, 0, 1, 0, 0, 0, 0, 0, 1]);
    assert_eq!(stats.iter().sum::<u32>(), 5);
}

#[test]
fn record_leading_digit_up_to_the_last_count() {
    let mut stats: Vec<u32> = vec![u32::MAX - 1, 0, 0, 0, 0, 0, 0, 0, 0];
    record_leading_digit(&mut stats, 1);
    assert_eq!(stats[0], u32::MAX);
}
