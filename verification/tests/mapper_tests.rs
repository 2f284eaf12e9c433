use wordfreq::mapper::Mapper;

fn lines(v: &[&str]) -> Vec<String> {
    v.iter().map(|s| String::from(*s)).collect()
}

#[test]
fn test_mapper() {
    let mut mapper = Mapper::new();
    let id1 = mapper.get_unique_id();
    let id2 = mapper.get_unique_id();
    println!("id1: {}, id2: {}", id1, id2);
    assert_eq!(id1 + 1, id2);
}

#[test]
fn test_mapper_process_file() {
    let mapper = Mapper::new();
    let res = mapper.process_file(&lines(&["Hello World!"]));
    assert_eq!(res.len(), 2);
    assert!(res.get("hello").is_some());
    assert!(res.get("world!").is_some());
}

#[test]
fn test_mapper_process_files() {
    let mut mapper = Mapper::new();
    let res = mapper.process_file_with_buffer(&lines(&["Hello World!"]));
    assert_eq!(res.0, 1);
}

#[test]
fn hello_world_counts() {
    let table = wordfreq::mapper::count_words(&lines(&["Hello World!"]));
    assert_eq!(table.len(), 2);
    assert_eq!(table.get("hello"), Some(1));
    assert_eq!(table.get("world!"), Some(1));
    assert_eq!(table.get("World!"), None);
}

#[test]
fn counting_same_content_twice_is_identical() {
    let content = lines(&["The quick Brown fox", "jumps over THE lazy dog", "the end."]);
    let t1 = wordfreq::mapper::count_words(&content);
    let t2 = wordfreq::mapper::count_words(&content);
    assert_eq!(t1.len(), t2.len());
    let mut i = 0;
    while i < t1.len() {
        let w = t1.word_at(i).clone();
        assert_eq!(t1.word_at(i), t2.word_at(i));
        assert_eq!(t1.count_at(i), t2.count_at(i));
        assert_eq!(t1.get(w.as_str()), t2.get(w.as_str()));
        i += 1;
    }
}

#[test]
fn repeated_words_are_counted() {
    let table = wordfreq::mapper::count_words(&lines(&["a A a b", "B a"]));
    assert_eq!(table.len(), 2);
    assert_eq!(table.get("a"), Some(4));
    assert_eq!(table.get("b"), Some(2));
}

#[test]
fn undecodable_or_empty_lines_add_nothing() {
    let table = wordfreq::mapper::count_words(&lines(&["", "   ", "one"]));
    assert_eq!(table.len(), 1);
    assert_eq!(table.get("one"), Some(1));
}

#[test]
fn drain_fires_exactly_at_threshold() {
    let mut mapper = Mapper::new();
    let content = lines(&["apple"]);
    for round in 1..=9 {
        let (id, ops) = mapper.process_file_with_buffer(&content);
        assert_eq!(id, round);
        assert!(ops.is_empty());
        assert_eq!(mapper.buffer_len(), round);
    }
    let (id, ops) = mapper.process_file_with_buffer(&content);
    assert_eq!(id, 10);
    assert_eq!(mapper.buffer_len(), 0);
    assert_eq!(ops.len(), 10);
    for op in ops.iter() {
        assert_eq!(op.path, "./tmp/1.txt");
        assert_eq!(op.line, "apple:1\n");
    }
}

#[test]
fn cleanup_drains_unconditionally() {
    let mut mapper = Mapper::new();
    let (_, ops) = mapper.process_file_with_buffer(&lines(&["apple zebra zebra"]));
    assert!(ops.is_empty());
    assert_eq!(mapper.buffer_len(), 1);
    let (ack, ops) = mapper.cleanup();
    assert_eq!(ack, "Cleanup Finished");
    assert_eq!(mapper.buffer_len(), 0);
    assert_eq!(ops.len(), 2);
    assert_eq!(ops[0].path, "./tmp/1.txt");
    assert_eq!(ops[0].line, "apple:1\n");
    assert_eq!(ops[1].path, "./tmp/5.txt");
    assert_eq!(ops[1].line, "zebra:2\n");
}

#[test]
fn cleanup_with_empty_buffer_yields_nothing() {
    let mut mapper = Mapper::new();
    let (ack, ops) = mapper.cleanup();
    assert_eq!(ack, "Cleanup Finished");
    assert!(ops.is_empty());
}

#[test]
fn drain_routes_by_leading_character() {
    let mut mapper = Mapper::new();
    let (_, ops) =
        mapper.process_file_with_buffer(&lines(&["apple grape mango sugar zebra 42nd"]));
    assert!(ops.is_empty());
    let (_, ops) = mapper.cleanup();
    assert_eq!(ops.len(), 6);
    assert_eq!(ops[0].path, "./tmp/1.txt");
    assert_eq!(ops[1].path, "./tmp/2.txt");
    assert_eq!(ops[2].path, "./tmp/3.txt");
    assert_eq!(ops[3].path, "./tmp/4.txt");
    assert_eq!(ops[4].path, "./tmp/5.txt");
    assert_eq!(ops[5].path, "./tmp/5.txt");
    assert_eq!(ops[5].line, "42nd:1\n");
}

#[test]
fn try_count_words_accepts_ordinary_input() {
    let table = wordfreq::mapper::try_count_words(&lines(&["x y x"])).unwrap();
    assert_eq!(table.get("x"), Some(2));
    assert_eq!(table.get("y"), Some(1));
    assert_eq!(table.get("z"), None);
}
