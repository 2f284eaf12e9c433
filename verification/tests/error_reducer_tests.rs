use wordfreq::error::Error;
use wordfreq::reducer::Reducer;
use wordfreq::reducer::ReducerMessage;
use wordfreq::table::WordCountTable;

#[test]
fn test_get_unique_id() {
    let mut reducer = Reducer::new();
    let id = reducer.get_unique_id();
    assert_eq!(id, 1);
}

#[test]
fn reducer_answers_only_id_requests() {
    let mut reducer = Reducer::new();
    assert_eq!(reducer.handle_message(ReducerMessage::GetId), Some(1));
    let shuffled = reducer.handle_message(ReducerMessage::Shuffle {
        partition_name: String::from("./tmp/1.txt"),
    });
    assert_eq!(shuffled, None);
    let reduced = reducer.handle_message(ReducerMessage::Reduce {
        partition_name: String::from("./tmp/1.txt"),
    });
    assert_eq!(reduced, None);
    assert_eq!(reducer.handle_message(ReducerMessage::GetId), Some(2));
}

#[test]
fn error_messages_name_the_condition() {
    assert_eq!(Error::EmptyArguments.message(), "No arguments provided");
    assert_eq!(
        Error::CoreError.message(),
        "An error occurred in the core module"
    );
    let invalid = Error::InvalidArguments(vec![String::from("--bad"), String::from("-x")]);
    assert_eq!(
        invalid.message(),
        format!("Invalid arguments provided: {:?}", vec!["--bad", "-x"])
    );
    assert_eq!(invalid.message(), "Invalid arguments provided: [\"--bad\", \"-x\"]");
    let no_args = Error::InvalidArguments(Vec::new());
    assert_eq!(no_args.message(), "Invalid arguments provided: []");
    let unreadable = Error::DirectoryReadError(std::io::Error::new(
        std::io::ErrorKind::NotFound,
        "no such directory",
    ));
    assert!(unreadable.message().starts_with("Error reading directory: "));
}

#[test]
fn table_lookup_and_increment() {
    let mut table = WordCountTable::new();
    assert_eq!(table.len(), 0);
    assert_eq!(table.get("apple"), None);
    table.increment(String::from("apple"));
    table.increment(String::from("pear"));
    table.increment(String::from("apple"));
    assert_eq!(table.len(), 2);
    assert_eq!(table.get("apple"), Some(2));
    assert_eq!(table.get("pear"), Some(1));
    assert_eq!(table.word_at(0), "apple");
    assert_eq!(table.count_at(0), 2);
    assert_eq!(table.word_at(1), "pear");
    assert_eq!(table.count_at(1), 1);
}
