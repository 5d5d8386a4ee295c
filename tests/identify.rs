use ironside::identify::{DictionaryDownload, Identify, IdentifyResponse, McuCommand, IDENTIFY_CHUNK};
use ironside::message::FieldValue;

#[test]
fn identify_arguments() {
    let args = Identify { offset: 80, count: 40 }.to_args();
    assert_eq!(
        args,
        vec![
            ("offset".to_string(), FieldValue::U32(80)),
            ("count".to_string(), FieldValue::U8(40))
        ]
    );
}

#[test]
fn identify_response_from_values() {
    let vs = vec![
        ("offset".to_string(), FieldValue::U32(0)),
        ("data".to_string(), FieldValue::Bytes(vec![1, 2])),
    ];
    assert_eq!(
        IdentifyResponse::from_values(&vs),
        Some(IdentifyResponse { offset: 0, data: vec![1, 2] })
    );
    let wrong = vec![("data".to_string(), FieldValue::Bytes(vec![]))];
    assert_eq!(IdentifyResponse::from_values(&wrong), None);
}

#[test]
fn download_collects_chunks_until_empty() {
    let mut dl = DictionaryDownload::new();
    assert_eq!(dl.next_request(), Identify { offset: 0, count: IDENTIFY_CHUNK });
    assert!(dl.accept(&IdentifyResponse { offset: 0, data: vec![1, 2, 3] }));
    assert_eq!(dl.next_request().offset, 3);
    assert!(!dl.accept(&IdentifyResponse { offset: 0, data: vec![9] }));
    assert!(dl.accept(&IdentifyResponse { offset: 3, data: vec![4] }));
    assert!(!dl.complete);
    assert!(dl.accept(&IdentifyResponse { offset: 4, data: vec![] }));
    assert!(dl.complete);
    assert!(!dl.accept(&IdentifyResponse { offset: 4, data: vec![5] }));
    assert_eq!(dl.data, vec![1, 2, 3, 4]);
}

#[test]
fn identify_text_form() {
    let cmd = Identify { offset: 1234567, count: 40 };
    assert_eq!(cmd.to_command_string(), "identify offset=1234567 count=40");
    assert_eq!(<Identify as McuCommand>::OID, 1);
    assert_eq!(Identify { offset: 0, count: 0 }.command_text(), "identify offset=0 count=0");
}
