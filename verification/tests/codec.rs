use mdns_discovery::packet::DnsAnswer;
use mdns_discovery::packet::parse_packet;
use mdns_discovery::query::DnsHeader;
use mdns_discovery::query::build_query;
use mdns_discovery::query::encode_dns_name;

fn label_encoded(parts: &[&str]) -> Vec<u8> {
    let mut out: Vec<u8> = Vec::new();
    for p in parts {
        out.push(p.len() as u8);
        out.extend_from_slice(p.as_bytes());
    }
    out.push(0);
    out
}

#[test]
fn header_query_bytes() {
    let h = DnsHeader::new_query();
    let b = h.to_bytes();
    assert_eq!(b, vec![0, 0, 0, 0, 0, 1, 0, 0, 0, 0, 0, 0]);
}

#[test]
fn encode_name_printer() {
    let name = b"Printer._http._tcp.local".to_vec();
    let got = encode_dns_name(&name);
    assert_eq!(got, label_encoded(&["Printer", "_http", "_tcp", "local"]));
}

#[test]
fn encode_name_single_label() {
    let got = encode_dns_name(&b"local".to_vec());
    assert_eq!(got, vec![5, b'l', b'o', b'c', b'a', b'l', 0]);
}

#[test]
fn encode_name_empty() {
    let got = encode_dns_name(&Vec::new());
    assert_eq!(got, vec![0, 0]);
}

#[test]
fn query_packet_layout() {
    let got = build_query(&b"x.local".to_vec());
    let mut want: Vec<u8> = vec![0, 0, 0, 0, 0, 1, 0, 0, 0, 0, 0, 0];
    want.extend_from_slice(&[1, b'x', 5, b'l', b'o', b'c', b'a', b'l', 0]);
    want.extend_from_slice(&[0, 12, 0, 1]); // QTYPE PTR, QCLASS IN
    assert_eq!(got, want);
}

#[test]
fn encode_name_longest_label() {
    let label = vec![b'a'; 63];
    let got = encode_dns_name(&label);
    let mut want = vec![63u8];
    want.extend_from_slice(&label);
    want.push(0);
    assert_eq!(got, want);
}

#[test]
fn parse_rejects_short_packet() {
    assert!(parse_packet(&vec![0u8; 11]).is_none());
}

#[test]
fn parse_own_query_is_marked_query() {
    let bytes = build_query(&b"svc.local".to_vec());
    let p = parse_packet(&bytes).expect("well-formed query must parse");
    assert!(p.query);
    assert!(p.answers.is_empty());
}

fn response_header(answers: u16) -> Vec<u8> {
    let mut b: Vec<u8> = Vec::new();
    b.extend_from_slice(&[0, 0]); // id
    b.extend_from_slice(&[0x84, 0x00]); // flags: response, authoritative
    b.extend_from_slice(&[0, 0]); // no questions
    b.extend_from_slice(&answers.to_be_bytes());
    b.extend_from_slice(&[0, 0, 0, 0]); // no authorities, no additionals
    b
}

fn srv_record(name: &[&str], port: u16, target: &[&str]) -> Vec<u8> {
    let mut r = label_encoded(name);
    r.extend_from_slice(&[0, 33, 0, 1]); // TYPE SRV, CLASS IN
    r.extend_from_slice(&[0, 0, 0, 120]); // ttl
    let t = label_encoded(target);
    r.extend_from_slice(&((6 + t.len()) as u16).to_be_bytes());
    r.extend_from_slice(&[0, 0, 0, 0]); // priority, weight
    r.extend_from_slice(&port.to_be_bytes());
    r.extend_from_slice(&t);
    r
}

fn a_record(name: &[&str], addr: [u8; 4]) -> Vec<u8> {
    let mut r = label_encoded(name);
    r.extend_from_slice(&[0, 1, 0, 1]); // TYPE A, CLASS IN
    r.extend_from_slice(&[0, 0, 0, 120]); // ttl
    r.extend_from_slice(&[0, 4]);
    r.extend_from_slice(&addr);
    r
}

#[test]
fn parse_response_with_srv_and_a() {
    let mut bytes = response_header(2);
    bytes.extend_from_slice(&srv_record(
        &["Printer", "_http", "_tcp", "local"],
        631,
        &["printer1", "local"],
    ));
    bytes.extend_from_slice(&a_record(&["printer1", "local"], [192, 168, 1, 50]));
    let p = parse_packet(&bytes).expect("well-formed response must parse");
    assert!(!p.query);
    assert_eq!(p.answers.len(), 2);
    match &p.answers[0] {
        DnsAnswer::Srv { name, port, target } => {
            assert_eq!(name, &b"Printer._http._tcp.local".to_vec());
            assert_eq!(*port, 631);
            assert_eq!(target, &b"printer1.local".to_vec());
        }
        _ => panic!("first answer should be the SRV record"),
    }
    match &p.answers[1] {
        DnsAnswer::Addr { name, addr } => {
            assert_eq!(name, &b"printer1.local".to_vec());
            assert_eq!(*addr, u32::from_be_bytes([192, 168, 1, 50]));
        }
        _ => panic!("second answer should be the A record"),
    }
}

#[test]
fn parse_follows_compression_pointer() {
    // first answer carries the name in place; the second one points
    // back at it (offset 12, bytes 0xC0 0x0C)
    let mut bytes = response_header(2);
    let mut other = label_encoded(&["host", "local"]);
    other.extend_from_slice(&[0, 16, 0, 1]); // TYPE TXT: kept as Other
    other.extend_from_slice(&[0, 0, 0, 120]);
    other.extend_from_slice(&[0, 0]); // empty rdata
    bytes.extend_from_slice(&other);
    bytes.extend_from_slice(&[0xC0, 0x0C]); // pointer to "host.local"
    bytes.extend_from_slice(&[0, 1, 0, 1]);
    bytes.extend_from_slice(&[0, 0, 0, 120]);
    bytes.extend_from_slice(&[0, 4]);
    bytes.extend_from_slice(&[10, 0, 0, 7]);
    let p = parse_packet(&bytes).expect("compressed response must parse");
    assert_eq!(p.answers.len(), 2);
    assert!(matches!(p.answers[0], DnsAnswer::Other));
    match &p.answers[1] {
        DnsAnswer::Addr { name, addr } => {
            assert_eq!(name, &b"host.local".to_vec());
            assert_eq!(*addr, u32::from_be_bytes([10, 0, 0, 7]));
        }
        _ => panic!("pointer answer should be the A record"),
    }
}

#[test]
fn parse_rejects_truncated_answer() {
    let mut bytes = response_header(1);
    let rec = srv_record(&["a", "local"], 80, &["b", "local"]);
    bytes.extend_from_slice(&rec[..rec.len() - 3]);
    assert!(parse_packet(&bytes).is_none());
}

#[test]
fn parse_rejects_bad_a_record_length() {
    let mut bytes = response_header(1);
    let mut r = label_encoded(&["host", "local"]);
    r.extend_from_slice(&[0, 1, 0, 1]);
    r.extend_from_slice(&[0, 0, 0, 120]);
    r.extend_from_slice(&[0, 3]); // an A record must carry 4 bytes
    r.extend_from_slice(&[10, 0, 0]);
    bytes.extend_from_slice(&r);
    assert!(parse_packet(&bytes).is_none());
}

#[test]
fn parse_rejects_pointer_loop() {
    let mut bytes = response_header(1);
    bytes.extend_from_slice(&[0xC0, 0x0C]); // a name pointing at itself
    bytes.extend_from_slice(&[0, 1, 0, 1]);
    bytes.extend_from_slice(&[0, 0, 0, 120]);
    bytes.extend_from_slice(&[0, 4]);
    bytes.extend_from_slice(&[10, 0, 0, 7]);
    assert!(parse_packet(&bytes).is_none());
}
