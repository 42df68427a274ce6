use krossbar_log::level::Level;
use krossbar_log::log_message::LogMessage;
use krossbar_log::session::{
    authorize, client_step, frame_body_len, AuthOutcome, ClientRegistry, LoggerService, RpcBody,
    RpcFrame, SessionStep,
};
use krossbar_log::timestamp::Timestamp;

fn record() -> LogMessage {
    LogMessage {
        timestamp: Timestamp {
            year: 2015,
            month: 2,
            day: 17,
            hour: 23,
            minute: 16,
            second: 9,
            millis: 0,
        },
        level: Level::Info,
        target: String::from("t"),
        message: String::from("hello"),
    }
}

fn register_frame(name: &str) -> RpcFrame {
    RpcFrame {
        endpoint: String::from("register"),
        body: RpcBody::Call(Some(String::from(name))),
    }
}

#[test]
fn test_register_then_duplicate() {
    let mut registry = ClientRegistry::new();

    // The first registration succeeds.
    match authorize(&mut registry, 1, Some(register_frame("test"))) {
        AuthOutcome::Registered(name) => assert_eq!(name, "test"),
        _ => panic!("expected a successful registration"),
    }

    // A second registration under the same name is refused.
    assert!(matches!(
        authorize(&mut registry, 2, Some(register_frame("test"))),
        AuthOutcome::RejectAlreadyRegistered
    ));

    // A different name still registers.
    assert!(matches!(
        authorize(&mut registry, 3, Some(register_frame("other"))),
        AuthOutcome::Registered(_)
    ));

    let names = LoggerService::clients(&registry);
    assert_eq!(names, vec![String::from("test"), String::from("other")]);
}

#[test]
fn test_register_rejections() {
    let mut registry = ClientRegistry::new();

    // Disconnect before the first frame.
    assert!(matches!(
        authorize(&mut registry, 1, None),
        AuthOutcome::Disconnected
    ));

    // Wrong endpoint.
    let frame = RpcFrame {
        endpoint: String::from("log"),
        body: RpcBody::Call(Some(String::from("test"))),
    };
    assert!(matches!(
        authorize(&mut registry, 1, Some(frame)),
        AuthOutcome::RejectWrongEndpoint
    ));

    // Not a call.
    let frame = RpcFrame {
        endpoint: String::from("register"),
        body: RpcBody::OneWay(Some(record())),
    };
    assert!(matches!(
        authorize(&mut registry, 1, Some(frame)),
        AuthOutcome::RejectNotCall
    ));

    // A call whose parameters are not a service name.
    let frame = RpcFrame {
        endpoint: String::from("register"),
        body: RpcBody::Call(None),
    };
    assert!(matches!(
        authorize(&mut registry, 1, Some(frame)),
        AuthOutcome::RejectBadBody
    ));

    // Nothing was admitted along the way.
    assert!(LoggerService::clients(&registry).is_empty());
}

#[test]
fn test_disconnect_frees_the_name() {
    let mut registry = ClientRegistry::new();
    authorize(&mut registry, 1, Some(register_frame("test")));
    assert!(
        matches!(
            LoggerService::set_log_level_target(&registry, &String::from("test")),
            Some(1)
        )
    );

    registry.remove(&String::from("test"));
    assert!(LoggerService::set_log_level_target(&registry, &String::from("test")).is_none());

    // The name can be taken again.
    assert!(matches!(
        authorize(&mut registry, 7, Some(register_frame("test"))),
        AuthOutcome::Registered(_)
    ));
}

#[test]
fn test_client_step() {
    // A valid record is forwarded.
    let frame = RpcFrame {
        endpoint: String::from("log"),
        body: RpcBody::OneWay(Some(record())),
    };
    match client_step(Some(frame)) {
        SessionStep::Forward(m) => assert_eq!(m.message, "hello"),
        _ => panic!("expected the record to be forwarded"),
    }

    // A wrong endpoint is answered with an error and the session closes.
    let frame = RpcFrame {
        endpoint: String::from("register"),
        body: RpcBody::OneWay(Some(record())),
    };
    assert!(matches!(
        client_step(Some(frame)),
        SessionStep::RespondErrorAndClose
    ));

    // A malformed body likewise.
    let frame = RpcFrame {
        endpoint: String::from("log"),
        body: RpcBody::OneWay(None),
    };
    assert!(matches!(
        client_step(Some(frame)),
        SessionStep::RespondErrorAndClose
    ));

    // Disconnection closes silently.
    assert!(matches!(client_step(None), SessionStep::Close));
}

#[test]
fn test_frame_body_len() {
    // 16-byte frame: 12 bytes follow the prefix.
    assert_eq!(frame_body_len(16, 0, 0, 0), Some(12));
    // The prefix alone is a legal, empty frame.
    assert_eq!(frame_body_len(4, 0, 0, 0), Some(0));
    // Shorter than the prefix itself: no legal frame.
    assert_eq!(frame_body_len(3, 0, 0, 0), None);
    // Past the signed 32-bit range: no legal frame.
    assert_eq!(frame_body_len(0, 0, 0, 128), None);
    // Little-endian: 0x0102 total means 254 bytes of body.
    assert_eq!(frame_body_len(2, 1, 0, 0), Some(254));
}
