use wordfreq::partition::key_partition;
use wordfreq::partition::partition_of;
use wordfreq::partition::shard_path;
use wordfreq::text::entry_line;
use wordfreq::text::tokenize;
use wordfreq::text::u32_to_dec;

#[test]
fn every_lowercase_letter_has_exactly_one_partition() {
    let expected = [
        ('a', 1),
        ('b', 1),
        ('c', 1),
        ('d', 1),
        ('e', 1),
        ('f', 1),
        ('g', 2),
        ('h', 2),
        ('i', 2),
        ('j', 2),
        ('k', 2),
        ('l', 2),
        ('m', 3),
        ('n', 3),
        ('o', 3),
        ('p', 3),
        ('q', 3),
        ('r', 3),
        ('s', 4),
        ('t', 4),
        ('u', 4),
        ('v', 4),
        ('w', 4),
        ('x', 4),
        ('y', 5),
        ('z', 5),
    ];
    assert_eq!(expected.len(), 26);
    for (c, id) in expected.iter() {
        let got = partition_of(*c);
        assert_eq!(got, *id);
        assert!(1 <= got && got <= 5);
    }
}

#[test]
fn non_letter_input_gets_the_default_partition() {
    for c in ['0', '9', '!', ' ', 'A', 'Z', '_', '\u{00e9}'] {
        assert_eq!(partition_of(c), 5);
    }
    assert_eq!(key_partition(""), 5);
    assert_eq!(key_partition("42nd"), 5);
    assert_eq!(key_partition("apple"), 1);
}

#[test]
fn shard_paths_are_deterministic() {
    assert_eq!(shard_path(1), "./tmp/1.txt");
    assert_eq!(shard_path(5), "./tmp/5.txt");
}

#[test]
fn decimal_rendering_is_exact() {
    assert_eq!(u32_to_dec(0), "0");
    assert_eq!(u32_to_dec(7), "7");
    assert_eq!(u32_to_dec(10), "10");
    assert_eq!(u32_to_dec(12345), "12345");
    assert_eq!(u32_to_dec(4294967295), "4294967295");
}

#[test]
fn entry_lines_have_the_word_colon_count_shape() {
    assert_eq!(entry_line("word", 3), "word:3\n");
    assert_eq!(entry_line("world!", 1), "world!:1\n");
}

#[test]
fn tokenize_splits_on_ascii_whitespace_only() {
    let toks = tokenize("  Hello\tWorld!  ");
    assert_eq!(toks, vec![String::from("Hello"), String::from("World!")]);
    let toks = tokenize("one\r\ntwo\u{0c}three");
    assert_eq!(
        toks,
        vec![String::from("one"), String::from("two"), String::from("three")]
    );
    assert!(tokenize("").is_empty());
    assert!(tokenize(" \t ").is_empty());
    assert_eq!(tokenize("lone"), vec![String::from("lone")]);
}
