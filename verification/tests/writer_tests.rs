use wordfreq::writer::IoAction;
use wordfreq::writer::Request;
use wordfreq::writer::RequestHeader;
use wordfreq::writer::ResponseHeader;
use wordfreq::writer::Writer;

/// Drives one begin-writing request as the runtime would when every
/// open succeeds.
fn begin_ok(writer: &mut Writer, path: &str) -> (wordfreq::writer::Response, bool) {
    let action = writer.begin_writing_action(path);
    let needed_open = action.is_some();
    (writer.begin_writing(String::from(path), true), needed_open)
}

/// Drives one write request as the runtime would when every append
/// succeeds.
fn write_ok(writer: &mut Writer, message: Request) -> (wordfreq::writer::Response, Option<IoAction>) {
    let action = writer.write_action(&message);
    let response = writer.write_message(message, true);
    (response, action)
}

#[test]
fn test_begin_writing() {
    let mut writer = Writer::new();
    let (packet, _) = begin_ok(&mut writer, "test.txt");
    assert_eq!(packet.status, 200);
}

#[test]
fn test_write_message() {
    let mut writer = Writer::new();
    let (zero, _) = begin_ok(&mut writer, "test2.txt");
    println!("{:?}", zero);
    assert_eq!(zero.status, 200);

    let first_message = Request {
        header: RequestHeader::Prepare,
        body: String::from("We're starting now"),
    };
    let (first, first_action) = write_ok(&mut writer, first_message);
    println!("{:?}", first);
    assert_eq!(first.status, 200);
    assert!(first_action.is_none());

    let message_second = Request {
        header: RequestHeader::Payload { key: String::from("test2.txt") },
        body: String::from("A new dog is here!"),
    };
    let (second, second_action) = write_ok(&mut writer, message_second);
    println!("{:?}", second);
    assert_eq!(second.status, 200);
    match second_action {
        Some(IoAction::Append { path, data }) => {
            assert_eq!(path, "test2.txt");
            assert_eq!(data, "A new dog is here!");
        }
        other => panic!("expected an append action, got {:?}", other),
    }

    let message_third = Request {
        header: RequestHeader::Cleanup,
        body: String::from("No more data!"),
    };
    let (third, third_action) = write_ok(&mut writer, message_third);
    println!("{:?}", third);
    assert_eq!(third.status, 200);
    assert!(third_action.is_none());
}

#[test]
fn begin_writing_is_idempotent() {
    let mut writer = Writer::new();
    let a1 = writer.begin_writing_action("./tmp/1.txt");
    assert!(matches!(a1, Some(IoAction::OpenAppend { .. })));
    let r1 = writer.begin_writing(String::from("./tmp/1.txt"), true);
    assert_eq!(r1.status, 200);
    assert_eq!(writer.open_count(), 1);

    let a2 = writer.begin_writing_action("./tmp/1.txt");
    assert!(a2.is_none());
    let r2 = writer.begin_writing(String::from("./tmp/1.txt"), true);
    assert_eq!(r2.status, 200);
    assert_eq!(writer.open_count(), 1);
}

#[test]
fn failed_open_is_an_error_and_opens_nothing() {
    let mut writer = Writer::new();
    let action = writer.begin_writing_action("./nodir/1.txt");
    assert!(matches!(action, Some(IoAction::OpenAppend { .. })));
    let resp = writer.begin_writing(String::from("./nodir/1.txt"), false);
    assert_eq!(resp.status, 400);
    assert!(matches!(resp.header, ResponseHeader::Error));
    assert_eq!(writer.open_count(), 0);

    let message = Request {
        header: RequestHeader::Payload { key: String::from("./nodir/1.txt") },
        body: String::from("word:1\n"),
    };
    assert!(writer.write_action(&message).is_none());
    let resp = writer.write_message(message, false);
    assert_eq!(resp.status, 400);
}

#[test]
fn failed_append_is_an_error() {
    let mut writer = Writer::new();
    let (resp, _) = begin_ok(&mut writer, "./tmp/4.txt");
    assert_eq!(resp.status, 200);
    let message = Request {
        header: RequestHeader::Payload { key: String::from("./tmp/4.txt") },
        body: String::from("word:1\n"),
    };
    let resp = writer.write_message(message, false);
    assert_eq!(resp.status, 400);
    assert!(matches!(resp.header, ResponseHeader::Error));
}

#[test]
fn payload_before_begin_is_an_error() {
    let mut writer = Writer::new();
    let message = Request {
        header: RequestHeader::Payload { key: String::from("./tmp/3.txt") },
        body: String::from("word:1\n"),
    };
    let (resp, action) = write_ok(&mut writer, message);
    assert_eq!(resp.status, 400);
    assert!(matches!(resp.header, ResponseHeader::Error));
    assert!(action.is_none());
}

#[test]
fn error_echo_is_answered_with_an_error() {
    let mut writer = Writer::new();
    let message = Request { header: RequestHeader::Error, body: String::new() };
    let (resp, action) = write_ok(&mut writer, message);
    assert_eq!(resp.status, 400);
    assert!(matches!(resp.header, ResponseHeader::Error));
    assert!(action.is_none());
}

#[test]
fn concurrent_drains_yield_one_append_per_line() {
    let mut writer = Writer::new();
    let shard = "./tmp/2.txt";
    let (resp, _) = begin_ok(&mut writer, shard);
    assert_eq!(resp.status, 200);

    let worker_lines = [
        ["golf:1\n", "hotel:2\n", "india:3\n"],
        ["juliet:4\n", "kilo:5\n", "lima:6\n"],
    ];
    let mut appended = Vec::new();
    for worker in worker_lines.iter() {
        for line in worker.iter() {
            let message = Request {
                header: RequestHeader::Payload { key: String::from(shard) },
                body: String::from(*line),
            };
            let (resp, action) = write_ok(&mut writer, message);
            assert_eq!(resp.status, 200);
            match action {
                Some(IoAction::Append { path, data }) => {
                    assert_eq!(path, shard);
                    appended.push(data);
                }
                _ => panic!("expected an append action"),
            }
        }
    }
    assert_eq!(appended.len(), 6);
    for (i, line) in worker_lines.iter().flatten().enumerate() {
        assert_eq!(appended[i], *line);
    }
}

#[test]
fn end_writing_flushes_every_open_shard() {
    let mut writer = Writer::new();
    begin_ok(&mut writer, "./tmp/1.txt");
    begin_ok(&mut writer, "./tmp/2.txt");
    let (resp, actions) = writer.end_writing();
    assert_eq!(resp.status, 200);
    assert!(matches!(resp.header, ResponseHeader::Finished));
    assert_eq!(actions.len(), 2);
    match &actions[0] {
        IoAction::Flush { path } => assert_eq!(path, "./tmp/1.txt"),
        _ => panic!("expected a flush action"),
    }
    match &actions[1] {
        IoAction::Flush { path } => assert_eq!(path, "./tmp/2.txt"),
        _ => panic!("expected a flush action"),
    }
}
