use automaze::options::{challenge_paths, Algorithm, Options};

#[test]
fn challenges_all_or_one() {
    let all = Options::new(None, 50_000, 50, None, false);
    assert_eq!(all.challenges(), 0..=5);
    let one = Options::new(Some(2), 50_000, 50, Some(Algorithm::Robust), true);
    assert_eq!(one.challenges(), 2..=2);
    assert_eq!(one.algorithm, Some(Algorithm::Robust));
}

#[test]
fn challenge_file_names() {
    assert_eq!(challenge_paths(0), ("input.txt".to_string(), "output.txt".to_string()));
    assert_eq!(challenge_paths(3), ("input3.txt".to_string(), "output3.txt".to_string()));
    assert_eq!(challenge_paths(42), ("input42.txt".to_string(), "output42.txt".to_string()));
    assert_eq!(challenge_paths(255), ("input255.txt".to_string(), "output255.txt".to_string()));
}
