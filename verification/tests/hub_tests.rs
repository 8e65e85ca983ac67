use relay_hub::hub::{ClientInfo, Hub, ReadOutcome, TargetNotFound};
use relay_hub::protocol::{declare_identity, DeliveryUnit, Frame};
use relay_hub::registry::SinkHandle;

fn connect(hub: &mut Hub, identity: &str) -> SinkHandle {
    let handle = hub.open_session().expect("a handle");
    assert_eq!(
        hub.receive(handle, declare_identity(identity)),
        ReadOutcome::Registered(identity.to_string())
    );
    handle
}

fn wire(hub: &mut Hub, handle: SinkHandle) -> Vec<Frame> {
    let mut frames = Vec::new();
    while let Some(unit) = hub.next_unit(handle) {
        frames.extend(unit.into_frames());
    }
    frames
}

fn pair(name: &str, payload: &[u8]) -> Vec<Frame> {
    vec![Frame::Text(name.to_string()), Frame::Binary(payload.to_vec())]
}

#[test]
fn laptop_receives_photo_as_one_text_and_one_binary_frame() {
    let mut hub = Hub::new();
    let laptop = hub.open_session().expect("a handle");
    let outcome = hub.receive(laptop, Frame::Text("ID:Laptop".to_string()));
    assert_eq!(outcome, ReadOutcome::Registered("Laptop".to_string()));
    let payload: Vec<u8> = (0u8..17).collect();
    assert_eq!(hub.deliver("Laptop", "photo.png".to_string(), payload.clone()), Ok(()));
    let frames = wire(&mut hub, laptop);
    assert_eq!(frames.len(), 2);
    assert_eq!(frames[0], Frame::Text("photo.png".to_string()));
    assert_eq!(frames[1], Frame::Binary(payload));
    assert_eq!(hub.next_unit(laptop), None);
}

#[test]
fn delivery_to_ghost_is_refused_and_nothing_is_written() {
    let mut hub = Hub::new();
    let laptop = connect(&mut hub, "Laptop");
    assert_eq!(hub.deliver("Ghost", "a.txt".to_string(), vec![1, 2, 3]), Err(TargetNotFound));
    assert_eq!(hub.next_unit(laptop), None);
    assert_eq!(hub.lookup("Ghost"), None);
    assert_eq!(hub.lookup("Laptop"), Some(laptop));
    assert_eq!(hub.list_online(), vec!["Laptop".to_string()]);
}

#[test]
fn delivery_to_an_empty_hub_is_refused() {
    let mut hub = Hub::new();
    assert_eq!(hub.deliver("Ghost", "a.txt".to_string(), vec![]), Err(TargetNotFound));
    assert!(hub.list_online().is_empty());
}

#[test]
fn two_uploads_to_one_client_never_interleave() {
    let a = ("a.bin", vec![0xAAu8; 5]);
    let b = ("b.bin", vec![0xBBu8; 3]);
    let mut first = Hub::new();
    let one = connect(&mut first, "Laptop");
    first.deliver("Laptop", a.0.to_string(), a.1.clone()).unwrap();
    first.deliver("Laptop", b.0.to_string(), b.1.clone()).unwrap();
    let mut ab = pair(a.0, &a.1);
    ab.extend(pair(b.0, &b.1));
    assert_eq!(wire(&mut first, one), ab);

    let mut second = Hub::new();
    let two = connect(&mut second, "Laptop");
    second.deliver("Laptop", b.0.to_string(), b.1.clone()).unwrap();
    second.deliver("Laptop", a.0.to_string(), a.1.clone()).unwrap();
    let mut ba = pair(b.0, &b.1);
    ba.extend(pair(a.0, &a.1));
    assert_eq!(wire(&mut second, two), ba);
}

#[test]
fn queued_units_are_written_in_the_order_of_their_deliveries() {
    let mut hub = Hub::new();
    let laptop = connect(&mut hub, "Laptop");
    let phone = connect(&mut hub, "Phone");
    let mut expected = Vec::new();
    for i in 0u8..6 {
        let name = format!("file{}", i);
        hub.deliver("Laptop", name.clone(), vec![i; i as usize]).unwrap();
        hub.deliver("Phone", format!("other{}", i), vec![0xFF]).unwrap();
        expected.extend(pair(&name, &vec![i; i as usize]));
    }
    assert_eq!(wire(&mut hub, laptop), expected);
    assert_eq!(wire(&mut hub, phone).len(), 12);
}

#[test]
fn handles_are_issued_in_order_and_never_twice() {
    let mut hub = Hub::new();
    let a = hub.open_session().unwrap();
    let b = hub.open_session().unwrap();
    assert_eq!(a, SinkHandle { id: 0 });
    assert_eq!(b, SinkHandle { id: 1 });
    assert_eq!(hub.close_session(a), None);
    let c = hub.open_session().unwrap();
    assert_eq!(c, SinkHandle { id: 2 });
}

#[test]
fn session_is_not_online_before_it_declares_itself() {
    let mut hub = Hub::new();
    let handle = hub.open_session().unwrap();
    assert!(hub.list_online().is_empty());
    assert_eq!(hub.next_unit(handle), None);
    assert_eq!(hub.close_session(handle), None);
}

#[test]
fn first_frame_that_is_no_declaration_closes_the_session() {
    let mut hub = Hub::new();
    let other = connect(&mut hub, "Phone");
    let handle = hub.open_session().unwrap();
    assert_eq!(hub.receive(handle, Frame::Text("hello".to_string())), ReadOutcome::Rejected);
    assert_eq!(hub.receive(handle, declare_identity("Laptop")), ReadOutcome::Gone);
    assert_eq!(hub.lookup("Laptop"), None);
    assert_eq!(hub.lookup("Phone"), Some(other));

    let handle = hub.open_session().unwrap();
    assert_eq!(hub.receive(handle, Frame::Binary(vec![1, 2])), ReadOutcome::Rejected);
    assert_eq!(hub.receive(handle, Frame::Binary(vec![1, 2])), ReadOutcome::Gone);
    assert_eq!(hub.list_online(), vec!["Phone".to_string()]);
}

#[test]
fn frames_after_the_declaration_change_nothing() {
    let mut hub = Hub::new();
    let laptop = connect(&mut hub, "Laptop");
    assert_eq!(hub.receive(laptop, Frame::Text("anything".to_string())), ReadOutcome::Idle);
    assert_eq!(hub.receive(laptop, Frame::Binary(vec![0])), ReadOutcome::Idle);
    assert_eq!(hub.receive(laptop, declare_identity("Other")), ReadOutcome::Idle);
    assert_eq!(hub.lookup("Laptop"), Some(laptop));
    assert_eq!(hub.lookup("Other"), None);
}

#[test]
fn close_takes_the_session_offline() {
    let mut hub = Hub::new();
    let laptop = connect(&mut hub, "Laptop");
    hub.deliver("Laptop", "lost.txt".to_string(), vec![1]).unwrap();
    assert_eq!(hub.close_session(laptop), Some("Laptop".to_string()));
    assert_eq!(hub.lookup("Laptop"), None);
    assert_eq!(hub.next_unit(laptop), None);
    assert_eq!(hub.deliver("Laptop", "late.txt".to_string(), vec![2]), Err(TargetNotFound));
    assert_eq!(hub.receive(laptop, Frame::Text("x".to_string())), ReadOutcome::Gone);
}

#[test]
fn close_twice_is_close_once() {
    let mut hub = Hub::new();
    let laptop = connect(&mut hub, "Laptop");
    let phone = connect(&mut hub, "Phone");
    assert_eq!(hub.close_session(laptop), Some("Laptop".to_string()));
    let after_once = (hub.list_online(), hub.lookup("Laptop"), hub.lookup("Phone"));
    assert_eq!(hub.close_session(laptop), None);
    let after_twice = (hub.list_online(), hub.lookup("Laptop"), hub.lookup("Phone"));
    assert_eq!(after_once, after_twice);
    assert_eq!(hub.lookup("Phone"), Some(phone));
}

#[test]
fn late_close_of_a_replaced_session_keeps_the_newer_online() {
    let mut hub = Hub::new();
    let a = connect(&mut hub, "X");
    hub.deliver("X", "for_a.txt".to_string(), vec![1]).unwrap();
    let b = connect(&mut hub, "X");
    assert_eq!(hub.lookup("X"), Some(b));
    hub.deliver("X", "for_b.txt".to_string(), vec![2]).unwrap();
    assert_eq!(wire(&mut hub, a), pair("for_a.txt", &[1]));
    assert_eq!(hub.close_session(a), None);
    assert_eq!(hub.lookup("X"), Some(b));
    assert_eq!(wire(&mut hub, b), pair("for_b.txt", &[2]));
    assert_eq!(hub.close_session(b), Some("X".to_string()));
    assert_eq!(hub.lookup("X"), None);
}

#[test]
fn end_of_one_session_leaves_the_others_alone() {
    let mut hub = Hub::new();
    let laptop = connect(&mut hub, "Laptop");
    let phone = connect(&mut hub, "Phone");
    hub.deliver("Phone", "kept.txt".to_string(), vec![4, 2]).unwrap();
    hub.close_session(laptop);
    assert_eq!(hub.lookup("Phone"), Some(phone));
    assert_eq!(hub.next_unit(phone), Some(DeliveryUnit::new("kept.txt".to_string(), vec![4, 2])));
}

#[test]
fn online_clients_are_listed_as_online() {
    let mut hub = Hub::new();
    connect(&mut hub, "Laptop");
    let phone = connect(&mut hub, "Phone");
    connect(&mut hub, "Tablet");
    hub.close_session(phone);
    let mut clients = hub.online_clients();
    clients.sort_by(|a, b| a.id.cmp(&b.id));
    assert_eq!(
        clients,
        vec![
            ClientInfo { id: "Laptop".to_string(), status: "Online".to_string() },
            ClientInfo { id: "Tablet".to_string(), status: "Online".to_string() },
        ]
    );
    assert!(Hub::new().online_clients().is_empty());
}

#[test]
fn drain_writes_all_that_waits_and_leaves_nothing() {
    let mut hub = Hub::new();
    let laptop = connect(&mut hub, "Laptop");
    let phone = connect(&mut hub, "Phone");
    hub.deliver("Laptop", "1.txt".to_string(), vec![1]).unwrap();
    hub.deliver("Phone", "p.txt".to_string(), vec![9]).unwrap();
    hub.deliver("Laptop", "2.txt".to_string(), vec![2, 2]).unwrap();
    let mut expected = pair("1.txt", &[1]);
    expected.extend(pair("2.txt", &[2, 2]));
    assert_eq!(hub.drain(laptop), expected);
    assert!(hub.drain(laptop).is_empty());
    assert_eq!(hub.drain(phone), pair("p.txt", &[9]));
    hub.close_session(phone);
    assert!(hub.drain(phone).is_empty());
    assert!(hub.drain(SinkHandle { id: 99 }).is_empty());
}
