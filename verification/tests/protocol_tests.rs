use relay_hub::inbox::{storage_path, Inbox, ProtocolViolation, Received};
use relay_hub::protocol::{declare_identity, encode_units, parse_identity, DeliveryUnit, Frame};

fn text(s: &str) -> Frame {
    Frame::Text(s.to_string())
}

fn unit(name: &str, payload: &[u8]) -> DeliveryUnit {
    DeliveryUnit::new(name.to_string(), payload.to_vec())
}

#[test]
fn declaration_carries_the_marker_and_the_identity() {
    assert_eq!(declare_identity("Laptop"), text("ID:Laptop"));
    assert_eq!(declare_identity(""), text("ID:"));
}

#[test]
fn declaration_is_read_back() {
    let frame = declare_identity("Laptop");
    assert_eq!(parse_identity(&frame), Some("Laptop".to_string()));
    let frame = declare_identity("Büro-PC 2");
    assert_eq!(parse_identity(&frame), Some("Büro-PC 2".to_string()));
}

#[test]
fn identity_is_everything_behind_the_marker() {
    assert_eq!(parse_identity(&text("ID:aID:b")), Some("aID:b".to_string()));
    assert_eq!(parse_identity(&text("ID: spaced ")), Some(" spaced ".to_string()));
    assert_eq!(parse_identity(&text("ID:")), Some(String::new()));
}

#[test]
fn text_without_the_marker_declares_nothing() {
    assert_eq!(parse_identity(&text("Laptop")), None);
    assert_eq!(parse_identity(&text("id:Laptop")), None);
    assert_eq!(parse_identity(&text(" ID:Laptop")), None);
    assert_eq!(parse_identity(&text("ID")), None);
    assert_eq!(parse_identity(&text("")), None);
}

#[test]
fn binary_frame_declares_nothing() {
    assert_eq!(parse_identity(&Frame::Binary(b"ID:Laptop".to_vec())), None);
}

#[test]
fn unit_keeps_name_and_content() {
    let u = DeliveryUnit::new("a.txt".to_string(), vec![1, 2, 3]);
    assert_eq!(u.filename, "a.txt");
    assert_eq!(u.payload, vec![1, 2, 3]);
}

#[test]
fn upload_without_a_name_travels_as_unknown_bin() {
    let u = DeliveryUnit::from_upload(None, vec![9]);
    assert_eq!(u.filename, "unknown.bin");
    assert_eq!(u.payload, vec![9]);
    let u = DeliveryUnit::from_upload(Some("report.pdf".to_string()), vec![]);
    assert_eq!(u.filename, "report.pdf");
    assert!(u.payload.is_empty());
}

#[test]
fn unit_becomes_name_frame_then_content_frame() {
    let frames = unit("photo.png", &[7; 17]).into_frames();
    assert_eq!(frames, vec![text("photo.png"), Frame::Binary(vec![7; 17])]);
}

#[test]
fn empty_file_still_takes_two_frames() {
    let frames = unit("", &[]).into_frames();
    assert_eq!(frames, vec![text(""), Frame::Binary(vec![])]);
}

#[test]
fn run_of_units_is_written_pair_by_pair() {
    let frames = encode_units(vec![unit("a", &[1]), unit("b", &[2, 2]), unit("c", &[])]);
    assert_eq!(
        frames,
        vec![
            text("a"),
            Frame::Binary(vec![1]),
            text("b"),
            Frame::Binary(vec![2, 2]),
            text("c"),
            Frame::Binary(vec![]),
        ]
    );
    assert!(encode_units(Vec::new()).is_empty());
}

#[test]
fn receiver_pairs_name_with_content() {
    let mut inbox = Inbox::new();
    assert!(!inbox.is_waiting());
    assert_eq!(inbox.accept(text("photo.png")), Received::Announced);
    assert!(inbox.is_waiting());
    assert_eq!(
        inbox.accept(Frame::Binary(vec![1, 2, 3])),
        Received::File(unit("photo.png", &[1, 2, 3]))
    );
    assert!(!inbox.is_waiting());
}

#[test]
fn content_without_a_name_is_dropped() {
    let mut inbox = Inbox::new();
    assert_eq!(
        inbox.accept(Frame::Binary(vec![1])),
        Received::Violation(ProtocolViolation::MissingHeader)
    );
    assert!(!inbox.is_waiting());
    assert_eq!(inbox.accept(text("next.bin")), Received::Announced);
    assert_eq!(inbox.accept(Frame::Binary(vec![2])), Received::File(unit("next.bin", &[2])));
    assert_eq!(
        inbox.accept(Frame::Binary(vec![3])),
        Received::Violation(ProtocolViolation::MissingHeader)
    );
}

#[test]
fn second_name_in_a_row_replaces_the_first() {
    let mut inbox = Inbox::new();
    assert_eq!(inbox.accept(text("old.txt")), Received::Announced);
    assert_eq!(
        inbox.accept(text("new.txt")),
        Received::Violation(ProtocolViolation::RepeatedHeader)
    );
    assert!(inbox.is_waiting());
    assert_eq!(inbox.accept(Frame::Binary(vec![5])), Received::File(unit("new.txt", &[5])));
}

#[test]
fn wire_of_a_run_is_received_as_the_same_run() {
    let sent = vec![unit("a", &[1]), unit("b", &[]), unit("a", &[3, 4])];
    let mut inbox = Inbox::new();
    let mut got = Vec::new();
    for frame in encode_units(sent.clone()) {
        match inbox.accept(frame) {
            Received::Announced => {}
            Received::File(u) => got.push(u),
            Received::Violation(v) => panic!("violation {:?}", v),
        }
    }
    assert_eq!(got, sent);
    assert!(!inbox.is_waiting());
}

#[test]
fn received_file_is_kept_under_its_name() {
    assert_eq!(storage_path("photo.png"), "files/photo.png");
    assert_eq!(storage_path(""), "files/");
}
