use kvs::gendir::all_generations;
use kvs::gendir::gen_filename;
use kvs::gendir::parse_gen_filename;

#[test]
fn filenames_are_number_dot_db() {
    assert_eq!(gen_filename(0), "0.db");
    assert_eq!(gen_filename(7), "7.db");
    assert_eq!(gen_filename(123), "123.db");
    assert_eq!(gen_filename(u64::MAX), "18446744073709551615.db");
}

#[test]
fn filename_round_trip() {
    for n in [0u64, 1, 9, 10, 4999, u64::MAX] {
        assert_eq!(parse_gen_filename(gen_filename(n).as_str()), Some(n));
    }
}

#[test]
fn nonconforming_names_are_ignored() {
    assert_eq!(parse_gen_filename("database"), None);
    assert_eq!(parse_gen_filename(".db"), None);
    assert_eq!(parse_gen_filename("12.txt"), None);
    assert_eq!(parse_gen_filename("x2.db"), None);
    assert_eq!(parse_gen_filename("18446744073709551616.db"), None);
}

#[test]
fn leading_zeros_spell_the_same_generation() {
    assert_eq!(parse_gen_filename("07.db"), Some(7));
    assert_eq!(parse_gen_filename("007.db"), Some(7));
    assert_eq!(parse_gen_filename("0.db"), Some(0));
    assert_eq!(parse_gen_filename("00.db"), Some(0));
    assert_eq!(
        parse_gen_filename("0000000000000000000000007.db"),
        Some(7)
    );
    let names = vec![
        "7.db".to_string(),
        "07.db".to_string(),
        "2.db".to_string(),
    ];
    assert_eq!(all_generations(&names), vec![2, 7]);
}

#[test]
fn listing_sorts_and_skips_strangers() {
    let names = vec![
        "3.db".to_string(),
        "0.db".to_string(),
        "junk".to_string(),
        "1.db".to_string(),
        "10.db".to_string(),
    ];
    assert_eq!(all_generations(&names), vec![0, 1, 3, 10]);
}
