use logkv::similarity::{similarity, Similarity};

fn parts(s: Similarity) -> (u64, u64) {
    (s.numer(), s.denom())
}

fn ratio(numer: u64, denom: u64) -> Similarity {
    Similarity::new(numer, denom).unwrap()
}

#[test]
fn equal_strings_score_one() {
    assert_eq!(parts(similarity("sunglasses", "sunglasses")), (10, 10));
    assert_eq!(parts(similarity("x", "x")), (1, 1));
}

#[test]
fn two_empty_strings_score_one() {
    assert_eq!(parts(similarity("", "")), (1, 1));
}

#[test]
fn empty_against_text_scores_zero() {
    assert_eq!(parts(similarity("", "flower")), (0, 6));
    assert_eq!(parts(similarity("tree", "")), (0, 4));
}

#[test]
fn score_is_one_minus_distance_over_longer_length() {
    // three edits, the longer string has seven characters
    assert_eq!(parts(similarity("kitten", "sitting")), (4, 7));
    assert_eq!(parts(similarity("cat", "car")), (2, 3));
    assert_eq!(parts(similarity("car", "animal")), (1, 6));
    assert_eq!(parts(similarity("car", "vehicle")), (1, 7));
}

#[test]
fn swap_of_neighbours_is_one_edit() {
    assert_eq!(parts(similarity("ab", "ba")), (1, 2));
    assert_eq!(parts(similarity("vehicle", "vehicel")), (6, 7));
    assert_eq!(parts(similarity("ab", "bca")), (1, 3));
    assert_eq!(parts(similarity("ca", "abc")), (1, 3));
}

#[test]
fn length_counts_characters_not_bytes() {
    assert_eq!(parts(similarity("levenshtein", "löwenbräu")), (3, 11));
    assert_eq!(parts(similarity("é", "e")), (0, 1));
}

#[test]
fn score_is_the_same_in_both_directions_on_samples() {
    for (a, b) in [("kitten", "sitting"), ("car", "vehicle"), ("", "abc"), ("ab", "bca")] {
        assert_eq!(parts(similarity(a, b)), parts(similarity(b, a)));
    }
}

#[test]
fn zero_denominator_is_refused() {
    assert!(Similarity::new(1, 0).is_none());
    assert!(Similarity::new(0, 0).is_none());
    assert_eq!(parts(ratio(3, 4)), (3, 4));
    assert_eq!(parts(ratio(0, 9)), (0, 9));
}

#[test]
fn one_and_zero() {
    assert_eq!(parts(Similarity::one()), (1, 1));
    assert_eq!(parts(Similarity::zero()), (0, 1));
    assert!(Similarity::zero().at_most(&Similarity::one()));
    assert!(!Similarity::one().at_most(&Similarity::zero()));
}

#[test]
fn fractions_compare_by_value() {
    assert!(ratio(1, 2).at_most(&ratio(2, 4)));
    assert!(ratio(2, 4).at_most(&ratio(1, 2)));
    assert!(ratio(1, 3).at_most(&ratio(1, 2)));
    assert!(!ratio(1, 2).at_most(&ratio(1, 3)));
    assert!(ratio(1, 7).at_most(&ratio(1, 6)));
    assert!(!ratio(1, 6).at_most(&ratio(1, 7)));
    assert!(ratio(7, 7).at_most(&Similarity::one()));
    assert!(Similarity::one().at_most(&ratio(7, 7)));
}

#[test]
fn comparison_does_not_overflow() {
    let huge = ratio(u64::MAX, 1);
    let one = ratio(u64::MAX, u64::MAX);
    let tiny = ratio(1, u64::MAX);
    assert!(one.at_most(&huge));
    assert!(!huge.at_most(&one));
    assert!(tiny.at_most(&one));
    assert!(!one.at_most(&tiny));
    assert!(huge.at_most(&huge));
}

#[test]
fn similarity_is_copied_unchanged() {
    let threshold = ratio(5, 8);
    let copy = threshold;
    assert_eq!(parts(copy), (5, 8));
    assert_eq!(parts(threshold.clone()), (5, 8));
}
