use peer::bitmap_words::{bits_of_words, words_of_bits};

#[test]
fn bits_are_packed_from_the_lowest_place_of_each_word() {
    assert_eq!(words_of_bits(&Vec::new()), Vec::<u64>::new());
    assert_eq!(words_of_bits(&vec![true]), vec![1]);
    assert_eq!(words_of_bits(&vec![false, true, true]), vec![6]);
    let mut bits = vec![false; 130];
    bits[0] = true;
    bits[63] = true;
    bits[64] = true;
    bits[129] = true;
    assert_eq!(words_of_bits(&bits), vec![1 | 1 << 63, 1, 2]);
    assert_eq!(words_of_bits(&vec![true; 64]), vec![u64::MAX]);
    assert_eq!(words_of_bits(&vec![true; 65]), vec![u64::MAX, 1]);
}

#[test]
fn packed_bits_come_back_as_they_were() {
    for len in [0usize, 1, 5, 63, 64, 65, 127, 128, 200] {
        let bits: Vec<bool> = (0..len).map(|at| at % 3 == 0 || at % 7 == 2).collect();
        let words = words_of_bits(&bits);
        assert_eq!(words.len(), (len + 63) / 64);
        assert_eq!(bits_of_words(len as u64, &words), bits);
    }
}

#[test]
fn no_more_bits_come_out_than_the_words_hold() {
    assert_eq!(bits_of_words(3, &vec![5]), vec![true, false, true]);
    assert_eq!(bits_of_words(200, &vec![1]).len(), 64);
    assert_eq!(bits_of_words(200, &Vec::new()), Vec::<bool>::new());
    assert_eq!(bits_of_words(0, &vec![u64::MAX]), Vec::<bool>::new());
    assert_eq!(bits_of_words(u64::MAX, &vec![0, 2]).len(), 128);
    assert!(bits_of_words(u64::MAX, &vec![0, 2])[65]);
}
