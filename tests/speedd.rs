use speedd::camera::{Camera, PlateRecord};
use speedd::client;
use speedd::collector::{day, is_violation, Collector};
use speedd::connection::{action, dispatcher_action, Action, CameraClient};
use speedd::server::{self, TicketRecord};
use speedd::DecodeError;

fn plate(p: &str, timestamp: u32) -> PlateRecord {
    PlateRecord {
        plate: p.to_string(),
        timestamp,
    }
}

fn ticket(p: &str, road: u16, mile1: u16, timestamp1: u32, mile2: u16, timestamp2: u32, speed: u16) -> TicketRecord {
    TicketRecord {
        plate: p.to_string(),
        road,
        mile1,
        timestamp1,
        mile2,
        timestamp2,
        speed,
    }
}

#[test]
fn encodes_example() {
    let msg = client::Message::IAmDispatcher(vec![66]);
    let mut encoder = client::MessageEncoder::default();

    let mut buffer = Vec::with_capacity(2);
    encoder.encode(&msg, &mut buffer);

    let expected = [0x81, 0x01, 0x00, 0x42];
    assert_eq!(buffer, expected[..]);
}

#[test]
fn server_example() {
    let ticket = server::Message::Ticket(ticket("RE05BKG", 368, 1234, 1000000, 1235, 1000060, 6000));
    let mut buffer = Vec::with_capacity(5);
    let mut encoder = server::MessageEncoder::default();
    encoder.encode(&ticket, &mut buffer);
    let expected = [
        0x21, 0x07, 0x52, 0x45, 0x30, 0x35, 0x42, 0x4b, 0x47, 0x01, 0x70, 0x04, 0xd2, 0x00, 0x0f,
        0x42, 0x40, 0x04, 0xd3, 0x00, 0x0f, 0x42, 0x7c, 0x17, 0x70,
    ];
    assert_eq!(&expected, &buffer[..]);
}

#[test]
fn decoder_decodes_example() {
    let bytes = [
        0x21, 0x07, 0x52, 0x45, 0x30, 0x35, 0x42, 0x4b, 0x47, 0x01, 0x70, 0x04, 0xd2, 0x00, 0x0f,
        0x42, 0x40, 0x04, 0xd3, 0x00, 0x0f, 0x42, 0x7c, 0x17, 0x70,
    ];

    let mut decoder = server::MessageDecoder::default();
    let none = decoder.decode(&bytes[0..5]).unwrap();
    assert!(none.is_none());
    let (message, used) = decoder.decode(&bytes).unwrap().unwrap();
    assert_eq!(used, bytes.len());

    let expected = server::Message::Ticket(ticket("RE05BKG", 368, 1234, 1000000, 1235, 1000060, 6000));
    assert_eq!(expected, message);
}

#[test]
fn decoder_example() {
    let input = [
        0x20, 0x07, 0x52, 0x45, 0x30, 0x35, 0x42, 0x4b, 0x47, 0x00, 0x01, 0xe2, 0x40,
    ];

    let mut decoder = client::MessageDecoder::default();
    let first = decoder.decode(&input[0..5]);
    assert!(matches!(first, Ok(None)));

    let (second, used) = decoder.decode(&input).unwrap().unwrap();
    assert_eq!(used, input.len());
    let expected = client::Message::Plate(plate("RE05BKG", 123456));
    assert_eq!(expected, second);
}

#[test]
fn dispatcher_example() {
    let input = [0x81, 0x03, 0x00, 0x42, 0x01, 0x70, 0x13, 0x88];

    let mut decoder = client::MessageDecoder::default();
    let first = decoder.decode(&input[0..5]);
    assert!(matches!(first, Ok(None)));

    let (second, _) = decoder.decode(&input).unwrap().unwrap();
    let expected = client::Message::IAmDispatcher(vec![66, 368, 5000]);
    assert_eq!(expected, second);
}

#[test]
fn codec_example() {
    let mut decoder = client::MessageDecoder::default();
    let client_1 = [
        0x80, 0x00, 0x7b, 0x00, 0x08, 0x00, 0x3c, 0x20, 0x04, 0x55, 0x4e, 0x31, 0x58, 0x00, 0x00,
        0x00, 0x00,
    ];
    let (m, n) = decoder.decode(&client_1).unwrap().unwrap();
    assert_eq!(m, client::Message::IAmCamera(Camera { road: 123, mile: 8, limit: 60 }));
    let (m, _) = decoder.decode(&client_1[n..]).unwrap().unwrap();
    assert_eq!(m, client::Message::Plate(plate("UN1X", 0)));

    let client_2 = [
        0x80, 0x00, 0x7b, 0x00, 0x09, 0x00, 0x3c, 0x20, 0x04, 0x55, 0x4e, 0x31, 0x58, 0x00, 0x00,
        0x00, 0x2d,
    ];
    let (m, n) = decoder.decode(&client_2).unwrap().unwrap();
    assert_eq!(m, client::Message::IAmCamera(Camera { road: 123, mile: 9, limit: 60 }));
    let (m, _) = decoder.decode(&client_2[n..]).unwrap().unwrap();
    assert_eq!(m, client::Message::Plate(plate("UN1X", 45)));
}

#[test]
fn collector_example() {
    let mut col = Collector::new();
    let first = col.observe(&plate("ABC", 1), &Camera { road: 12, mile: 2, limit: 10 });
    assert_eq!(first, None);
    let second = col.observe(&plate("ABC", 20), &Camera { road: 12, mile: 4, limit: 10 });
    let third = col.observe(&plate("ABC", 24), &Camera { road: 115, mile: 17, limit: 10 });
    assert_eq!(third, None);
    assert_eq!(second, Some(ticket("ABC", 12, 2, 1, 4, 20, 37900)));
}

#[test]
fn basic_violation() {
    let mut col = Collector::new();
    let cam8 = Camera { road: 123, mile: 8, limit: 60 };
    let cam9 = Camera { road: 123, mile: 9, limit: 60 };
    assert_eq!(col.observe(&plate("UN1X", 0), &cam8), None);
    assert_eq!(
        col.observe(&plate("UN1X", 45), &cam9),
        Some(ticket("UN1X", 123, 8, 0, 9, 45, 8000))
    );
}

#[test]
fn sighting_out_of_order_is_paired_with_the_later_one() {
    let mut col = Collector::new();
    let cam8 = Camera { road: 123, mile: 8, limit: 60 };
    let cam9 = Camera { road: 123, mile: 9, limit: 60 };
    assert_eq!(col.observe(&plate("UN1X", 45), &cam9), None);
    assert_eq!(
        col.observe(&plate("UN1X", 0), &cam8),
        Some(ticket("UN1X", 123, 8, 0, 9, 45, 8000))
    );
}

#[test]
fn day_gate_drops_a_second_ticket_on_the_same_day() {
    let mut col = Collector::new();
    let cam = |mile| Camera { road: 123, mile, limit: 60 };
    assert_eq!(col.observe(&plate("UN1X", 0), &cam(8)), None);
    assert!(col.observe(&plate("UN1X", 45), &cam(9)).is_some());
    assert_eq!(col.observe(&plate("UN1X", 1000), &cam(20)), None);
    assert_eq!(col.observe(&plate("UN1X", 1045), &cam(21)), None);
    assert_eq!(col.observe(&plate("OTHER", 1000), &cam(20)), None);
    assert!(col.observe(&plate("OTHER", 1045), &cam(21)).is_some());
}

#[test]
fn lone_sighting_gives_no_ticket() {
    let mut col = Collector::new();
    assert_eq!(col.observe(&plate("A", 100), &Camera { road: 1, mile: 5, limit: 1 }), None);
    assert_eq!(col.observe(&plate("A", 200), &Camera { road: 2, mile: 500, limit: 1 }), None);
}

#[test]
fn both_neighbours_give_the_earlier_ticket_only() {
    let mut col = Collector::new();
    let cam = |mile| Camera { road: 7, mile, limit: 60 };
    assert_eq!(col.observe(&plate("X", 0), &cam(0)), None);
    assert_eq!(col.observe(&plate("X", 172800), &cam(0)), None);
    assert_eq!(
        col.observe(&plate("X", 86400), &cam(3000)),
        Some(ticket("X", 7, 0, 0, 3000, 86400, 12500))
    );
    // Day 1 is still free: a ticket on it alone goes through, and then no
    // other ticket on day 1 does.
    assert_eq!(
        col.observe(&plate("X", 86500), &cam(0)),
        Some(ticket("X", 7, 3000, 86400, 0, 86500, 65535))
    );
    assert_eq!(col.observe(&plate("X", 86600), &cam(3000)), None);
}

#[test]
fn speeds_round_and_saturate() {
    assert_eq!(is_violation(6000, 0, 45, 8, 9), Some(8000));
    assert_eq!(is_violation(8000, 0, 45, 8, 9), None);
    assert_eq!(is_violation(0, 10, 10, 1, 2), None);
    assert_eq!(is_violation(1000, 1, 20, 2, 4), Some(37900));
    assert_eq!(is_violation(1000, 0, 1, 0, 65535), Some(65535));
    assert_eq!(day(86399), 0);
    assert_eq!(day(86400), 1);
}

#[test]
fn round_trips_client_messages() {
    let messages = vec![
        client::Message::Plate(plate("UN1X", 45)),
        client::Message::Plate(plate("", 0)),
        client::Message::WantHeartbeat(25),
        client::Message::IAmCamera(Camera { road: 66, mile: 100, limit: 60 }),
        client::Message::IAmDispatcher(vec![]),
        client::Message::IAmDispatcher(vec![1, 2, 65535]),
    ];
    let mut encoder = client::MessageEncoder::default();
    let mut decoder = client::MessageDecoder::default();
    for m in messages {
        let mut bytes = Vec::new();
        encoder.encode(&m, &mut bytes);
        for k in 0..bytes.len() {
            assert_eq!(decoder.decode(&bytes[..k]), Ok(None));
        }
        bytes.push(0x41);
        let (back, used) = decoder.decode(&bytes).unwrap().unwrap();
        assert_eq!(back, m);
        assert_eq!(used, bytes.len() - 1);
    }
}

#[test]
fn round_trips_server_messages() {
    let messages = vec![
        server::Message::Error("bad".to_string()),
        server::Message::Heartbeat,
        server::Message::Ticket(ticket("UN1X", 123, 8, 0, 9, 45, 8000)),
    ];
    let mut encoder = server::MessageEncoder::default();
    let mut decoder = server::MessageDecoder::default();
    for m in messages {
        let mut bytes = Vec::new();
        encoder.encode(&m, &mut bytes);
        for k in 0..bytes.len() {
            assert_eq!(decoder.decode(&bytes[..k]), Ok(None));
        }
        let (back, used) = decoder.decode(&bytes).unwrap().unwrap();
        assert_eq!(back, m);
        assert_eq!(used, bytes.len());
    }
}

#[test]
fn decode_errors() {
    let mut decoder = client::MessageDecoder::default();
    assert_eq!(decoder.decode(&[0x99, 0x00]), Err(DecodeError::UnknownTag(0x99)));
    assert_eq!(
        decoder.decode(&[0x20, 0x01, 0xff, 0, 0, 0, 0]),
        Err(DecodeError::BadText)
    );
    let mut decoder = server::MessageDecoder::default();
    assert_eq!(decoder.decode(&[0x42]), Err(DecodeError::UnknownTag(0x42)));
    assert_eq!(decoder.decode(&[0x10, 0x02, 0xc3, 0x28]), Err(DecodeError::BadText));
    let (m, _) = decoder.decode(&[0x10, 0x02, 0xc3, 0xa9]).unwrap().unwrap();
    assert_eq!(m, server::Message::Error("é".to_string()));
}

#[test]
fn zero_heartbeat_starts_nothing() {
    let mut handle = true;
    let a = action(client::Message::WantHeartbeat(0), &mut handle);
    assert_eq!(a, Action::Ignore);
    assert!(!handle);
    let a = action(client::Message::WantHeartbeat(5), &mut handle);
    assert_eq!(
        a,
        Action::Error(server::Message::Error("You already specified a heartbeat".to_string()))
    );
}

#[test]
fn connection_actions() {
    let mut handle = true;
    assert_eq!(
        action(client::Message::Plate(plate("A", 1)), &mut handle),
        Action::Error(server::Message::Error("You are no camera".to_string()))
    );
    assert!(handle);
    assert_eq!(
        action(client::Message::WantHeartbeat(5), &mut handle),
        Action::Heartbeat(5)
    );
    let cam = Camera { road: 1, mile: 2, limit: 3 };
    assert_eq!(action(client::Message::IAmCamera(cam), &mut handle), Action::SpawnCamera(cam));
    assert_eq!(
        action(client::Message::IAmDispatcher(vec![4, 5]), &mut handle),
        Action::SpawnDispatcher(vec![4, 5])
    );

    let camera = CameraClient::new(cam);
    let mut handle = true;
    assert_eq!(
        camera.handle_client_message(client::Message::Plate(plate("A", 1)), &mut handle),
        Action::Report(plate("A", 1), cam)
    );
    assert_eq!(
        camera.handle_client_message(client::Message::IAmCamera(cam), &mut handle),
        Action::Error(server::Message::Error("Yes, you are (a camera)".to_string()))
    );
    assert_eq!(
        dispatcher_action(client::Message::Plate(plate("A", 1)), &mut handle),
        Action::Error(server::Message::Error("You Sir Dispatcher are confused".to_string()))
    );
    assert_eq!(
        dispatcher_action(client::Message::WantHeartbeat(10), &mut handle),
        Action::Heartbeat(10)
    );
}

#[test]
fn largest_fields_round_trip() {
    let long_plate = "P".repeat(255);
    let roads: Vec<u16> = (0..255).collect();
    let mut encoder = client::MessageEncoder::default();
    let mut decoder = client::MessageDecoder::default();
    for m in [
        client::Message::Plate(plate(&long_plate, u32::MAX)),
        client::Message::IAmDispatcher(roads),
    ] {
        let mut bytes = Vec::new();
        encoder.encode(&m, &mut bytes);
        assert_eq!(decoder.decode(&bytes[..bytes.len() - 1]), Ok(None));
        let (back, used) = decoder.decode(&bytes).unwrap().unwrap();
        assert_eq!((back, used), (m, bytes.len()));
    }
    let t = server::Message::Ticket(ticket(&long_plate, 65535, 65535, u32::MAX, 0, 0, 65535));
    let mut bytes = Vec::new();
    server::MessageEncoder::default().encode(&t, &mut bytes);
    assert_eq!(bytes.len(), 2 + 255 + 16);
    let (back, _) = server::MessageDecoder::default().decode(&bytes).unwrap().unwrap();
    assert_eq!(back, t);
}

#[test]
fn candidates_of_a_sighting() {
    let mut col = Collector::new();
    let cam = |mile| Camera { road: 7, mile, limit: 60 };
    assert!(col.insert_record(&plate("X", 0), &cam(0)).is_empty());
    assert!(col.insert_record(&plate("X", 172800), &cam(0)).is_empty());
    let tickets = col.insert_record(&plate("X", 86400), &cam(3000));
    assert_eq!(
        tickets,
        vec![
            ticket("X", 7, 0, 0, 3000, 86400, 12500),
            ticket("X", 7, 3000, 86400, 0, 172800, 12500),
        ]
    );
    // A second sighting at the same time replaces the first; the sighting
    // found at that time gives no pair.
    let tickets = col.insert_record(&plate("X", 86400), &cam(3001));
    assert_eq!(tickets, vec![ticket("X", 7, 0, 0, 3001, 86400, 12500)]);
}

#[test]
fn dispatch_keeps_one_ticket_per_day() {
    let mut col = Collector::new();
    let t1 = ticket("Y", 3, 0, 0, 3000, 86400, 12500);
    let t2 = ticket("Y", 3, 3000, 86400, 0, 172800, 12500);
    assert_eq!(col.dispatch_tickets(&vec![t1.clone(), t2.clone()]), Some(t1.clone()));
    assert_eq!(col.dispatch_tickets(&vec![ticket("Y", 3, 0, 100, 50, 200, 65535)]), None);
    assert_eq!(col.dispatch_tickets(&vec![t2.clone()]), Some(t2));
    assert_eq!(col.dispatch_tickets(&vec![]), None);
    assert_eq!(
        col.dispatch_tickets(&vec![ticket("Z", 3, 0, 100, 50, 200, 65535)]),
        Some(ticket("Z", 3, 0, 100, 50, 200, 65535))
    );
}
