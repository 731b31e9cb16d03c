use proposal_backend::decode_proposal;
use proposal_backend::encode_proposal;
use proposal_backend::Principal;
use proposal_backend::Proposal;
use proposal_backend::MAX_RECORD_SIZE;

fn sample_proposal() -> Proposal {
    Proposal {
        description: b"Adopt budget".to_vec(),
        approve: 3,
        reject: 1,
        pass: 2,
        is_active: true,
        voted: vec![
            Principal::from_bytes(vec![1, 2, 3]),
            Principal::from_bytes(vec![4]),
            Principal::from_bytes(vec![]),
            Principal::from_bytes(vec![5, 6]),
            Principal::from_bytes(vec![7]),
            Principal::from_bytes(vec![8, 9, 10, 11]),
        ],
        owner: Principal::from_bytes(vec![42, 43]),
    }
}

fn assert_proposals_equal(a: &Proposal, b: &Proposal) {
    assert_eq!(a.description, b.description);
    assert_eq!(a.approve, b.approve);
    assert_eq!(a.reject, b.reject);
    assert_eq!(a.pass, b.pass);
    assert_eq!(a.is_active, b.is_active);
    assert_eq!(a.voted.len(), b.voted.len());
    for (x, y) in a.voted.iter().zip(b.voted.iter()) {
        assert_eq!(x.bytes, y.bytes);
    }
    assert_eq!(a.owner.bytes, b.owner.bytes);
}

#[test]
fn round_trip_reproduces_every_field() {
    let p = sample_proposal();
    let encoded = encode_proposal(&p).expect("within the size bound");
    let decoded = decode_proposal(&encoded).expect("a valid encoding");
    assert_proposals_equal(&p, &decoded);
}

#[test]
fn round_trip_of_minimal_record() {
    let p = Proposal {
        description: vec![],
        approve: 0,
        reject: 0,
        pass: 0,
        is_active: false,
        voted: vec![],
        owner: Principal::from_bytes(vec![]),
    };
    let encoded = encode_proposal(&p).expect("within the size bound");
    assert_eq!(encoded.len(), 25);
    let decoded = decode_proposal(&encoded).expect("a valid encoding");
    assert_proposals_equal(&p, &decoded);
}

#[test]
fn encoded_layout_is_exact() {
    let p = Proposal {
        description: vec![0xaa],
        approve: 1,
        reject: 0x01020304,
        pass: 0,
        is_active: true,
        voted: vec![Principal::from_bytes(vec![9])],
        owner: Principal::from_bytes(vec![7, 8]),
    };
    let encoded = encode_proposal(&p).expect("within the size bound");
    let expected: Vec<u8> = vec![
        1, 0, 0, 0, // approve, little endian
        4, 3, 2, 1, // reject, little endian
        0, 0, 0, 0, // pass
        1, // active
        2, 0, 0, 0, 7, 8, // owner, length-prefixed
        1, 0, 0, 0, 0xaa, // description, length-prefixed
        1, 0, 0, 0, // one voter
        1, 0, 0, 0, 9, // the voter, length-prefixed
    ];
    assert_eq!(encoded, expected);
}

#[test]
fn encode_refuses_oversized_record() {
    let mut p = sample_proposal();
    p.description = vec![0u8; MAX_RECORD_SIZE + 1];
    assert!(encode_proposal(&p).is_none());
}

#[test]
fn encode_accepts_record_at_the_bound() {
    let p = Proposal {
        description: vec![7u8; MAX_RECORD_SIZE - 25],
        approve: 0,
        reject: 0,
        pass: 0,
        is_active: true,
        voted: vec![],
        owner: Principal::from_bytes(vec![]),
    };
    let encoded = encode_proposal(&p).expect("exactly at the size bound");
    assert_eq!(encoded.len(), MAX_RECORD_SIZE);
    let mut over = p;
    over.description.push(7);
    assert!(encode_proposal(&over).is_none());
}

#[test]
fn decode_refuses_truncated_bytes() {
    let p = sample_proposal();
    let mut encoded = encode_proposal(&p).expect("within the size bound");
    encoded.pop();
    assert!(decode_proposal(&encoded).is_none());
    assert!(decode_proposal(&vec![]).is_none());
    assert!(decode_proposal(&vec![1, 2, 3]).is_none());
}

#[test]
fn decode_refuses_trailing_bytes() {
    let p = sample_proposal();
    let mut encoded = encode_proposal(&p).expect("within the size bound");
    encoded.push(0);
    assert!(decode_proposal(&encoded).is_none());
}

#[test]
fn decode_refuses_bad_activity_byte() {
    let p = sample_proposal();
    let mut encoded = encode_proposal(&p).expect("within the size bound");
    encoded[12] = 2;
    assert!(decode_proposal(&encoded).is_none());
}
