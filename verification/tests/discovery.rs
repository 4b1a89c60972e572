use mdns_discovery::registry::Registry;
use mdns_discovery::registry::Service;
use mdns_discovery::registry::ServiceRecord;
use mdns_discovery::registry::TTL_MS;

fn labels(parts: &[&str]) -> Vec<u8> {
    let mut out: Vec<u8> = Vec::new();
    for p in parts {
        out.push(p.len() as u8);
        out.extend_from_slice(p.as_bytes());
    }
    out.push(0);
    out
}

fn response(records: &[Vec<u8>]) -> Vec<u8> {
    let mut b: Vec<u8> = Vec::new();
    b.extend_from_slice(&[0, 0, 0x84, 0x00, 0, 0]);
    b.extend_from_slice(&(records.len() as u16).to_be_bytes());
    b.extend_from_slice(&[0, 0, 0, 0]);
    for r in records {
        b.extend_from_slice(r);
    }
    b
}

fn srv(name: &[&str], port: u16, target: &[&str]) -> Vec<u8> {
    let mut r = labels(name);
    r.extend_from_slice(&[0, 33, 0, 1, 0, 0, 0, 120]);
    let t = labels(target);
    r.extend_from_slice(&((6 + t.len()) as u16).to_be_bytes());
    r.extend_from_slice(&[0, 0, 0, 0]);
    r.extend_from_slice(&port.to_be_bytes());
    r.extend_from_slice(&t);
    r
}

fn a_rec(name: &[&str], addr: [u8; 4]) -> Vec<u8> {
    let mut r = labels(name);
    r.extend_from_slice(&[0, 1, 0, 1, 0, 0, 0, 120, 0, 4]);
    r.extend_from_slice(&addr);
    r
}

fn lookup(snap: &[(Service, ServiceRecord)], host: &[u8], port: u16) -> Option<ServiceRecord> {
    snap.iter()
        .find(|(s, _)| s.host == host && s.port == port)
        .map(|(_, r)| r.clone())
}

#[test]
fn upsert_refreshes_never_backwards() {
    let mut reg = Registry::new();
    let host = b"printer1.local".to_vec();
    reg.upsert(&host, 631, 100);
    let rec = lookup(&reg.snapshot(), &host, 631).unwrap();
    assert_eq!(rec.last_seen, 100);
    // an earlier timestamp must not move last_seen backwards
    reg.upsert(&host, 631, 50);
    let rec = lookup(&reg.snapshot(), &host, 631).unwrap();
    assert_eq!(rec.last_seen, 100);
    reg.upsert(&host, 631, 200);
    let rec = lookup(&reg.snapshot(), &host, 631).unwrap();
    assert_eq!(rec.last_seen, 200);
}

#[test]
fn upsert_keeps_addresses() {
    let mut reg = Registry::new();
    let host = b"printer1.local".to_vec();
    reg.upsert(&host, 631, 0);
    reg.add_address_for_host(&host, 7);
    reg.upsert(&host, 631, 10);
    let rec = lookup(&reg.snapshot(), &host, 631).unwrap();
    assert_eq!(rec.addresses, vec![7]);
}

#[test]
fn address_added_once() {
    let mut reg = Registry::new();
    let host = b"printer1.local".to_vec();
    reg.upsert(&host, 631, 0);
    reg.add_address_for_host(&host, 9);
    reg.add_address_for_host(&host, 9);
    reg.add_address_for_host(&host, 11);
    let rec = lookup(&reg.snapshot(), &host, 631).unwrap();
    assert_eq!(rec.addresses, vec![9, 11]);
}

#[test]
fn address_for_unknown_host_creates_nothing() {
    let mut reg = Registry::new();
    reg.add_address_for_host(&b"nobody.local".to_vec(), 9);
    assert!(reg.snapshot().is_empty());
}

#[test]
fn eviction_removes_exactly_the_stale() {
    let mut reg = Registry::new();
    reg.upsert(&b"old.local".to_vec(), 1, 0);
    reg.upsert(&b"new.local".to_vec(), 2, 4000);
    reg.evict(TTL_MS); // 0 + TTL_MS <= TTL_MS: stale, the boundary counts
    let snap = reg.snapshot();
    assert_eq!(snap.len(), 1);
    assert!(lookup(&snap, b"old.local", 1).is_none());
    assert!(lookup(&snap, b"new.local", 2).is_some());
}

#[test]
fn eviction_keeps_just_fresh_entry() {
    let mut reg = Registry::new();
    reg.upsert(&b"host.local".to_vec(), 1, 0);
    reg.evict(TTL_MS - 1);
    assert_eq!(reg.snapshot().len(), 1);
}

#[test]
fn refreshed_every_cycle_survives_long_run() {
    let mut reg = Registry::new();
    let host = b"host.local".to_vec();
    let mut now: u64 = 0;
    for _ in 0..100 {
        reg.upsert(&host, 80, now);
        reg.evict(now);
        now += 1000; // one-second cycles, well inside the window
    }
    assert!(lookup(&reg.snapshot(), &host, 80).is_some());
}

#[test]
fn query_packet_mutates_nothing() {
    let service = b"Printer._http._tcp.local".to_vec();
    let mut reg = Registry::new();
    reg.upsert(&b"kept.local".to_vec(), 1, 0);
    let query = mdns_discovery::query::build_query(&service);
    reg.process_datagram(&query, &service, 50);
    let snap = reg.snapshot();
    assert_eq!(snap.len(), 1);
    assert_eq!(lookup(&snap, b"kept.local", 1).unwrap().last_seen, 0);
}

#[test]
fn garbage_datagram_mutates_nothing() {
    let service = b"Printer._http._tcp.local".to_vec();
    let mut reg = Registry::new();
    reg.process_datagram(&vec![0xFF; 40], &service, 50);
    assert!(reg.snapshot().is_empty());
}

#[test]
fn unrelated_srv_creates_no_entry() {
    let service = b"Printer._http._tcp.local".to_vec();
    let mut reg = Registry::new();
    let bytes = response(&[srv(&["Scanner", "_ipp", "_tcp", "local"], 9100, &["scanner.local"])]);
    reg.process_datagram(&bytes, &service, 0);
    assert!(reg.snapshot().is_empty());
}

#[test]
fn a_record_alone_creates_no_entry() {
    let service = b"Printer._http._tcp.local".to_vec();
    let mut reg = Registry::new();
    let bytes = response(&[a_rec(&["printer1", "local"], [192, 168, 1, 50])]);
    reg.process_datagram(&bytes, &service, 0);
    assert!(reg.snapshot().is_empty());
}

#[test]
fn end_to_end_discovers_printer() {
    let service = b"Printer._http._tcp.local".to_vec();
    let mut reg = Registry::new();
    let bytes = response(&[
        srv(&["Printer", "_http", "_tcp", "local"], 631, &["printer1", "local"]),
        a_rec(&["printer1", "local"], [192, 168, 1, 50]),
    ]);
    reg.process_datagram(&bytes, &service, 1000);
    let snap = reg.snapshot();
    assert_eq!(snap.len(), 1);
    let (svc, rec) = &snap[0];
    assert_eq!(svc.host, b"printer1.local".to_vec());
    assert_eq!(svc.port, 631);
    assert_eq!(rec.last_seen, 1000);
    assert_eq!(rec.addresses, vec![u32::from_be_bytes([192, 168, 1, 50])]);
}

#[test]
fn end_to_end_silence_expires_entry() {
    let service = b"Printer._http._tcp.local".to_vec();
    let mut reg = Registry::new();
    let bytes = response(&[
        srv(&["Printer", "_http", "_tcp", "local"], 631, &["printer1", "local"]),
        a_rec(&["printer1", "local"], [192, 168, 1, 50]),
    ]);
    reg.process_datagram(&bytes, &service, 1000);
    assert_eq!(reg.snapshot().len(), 1);
    // six silent seconds later an eviction pass runs
    reg.evict(1000 + 6000);
    assert!(reg.snapshot().is_empty());
}

#[test]
fn a_record_in_later_packet_still_attributed() {
    let service = b"Printer._http._tcp.local".to_vec();
    let mut reg = Registry::new();
    let first = response(&[srv(&["Printer", "_http", "_tcp", "local"], 631, &["printer1", "local"])]);
    reg.process_datagram(&first, &service, 0);
    let second = response(&[a_rec(&["printer1", "local"], [192, 168, 1, 50])]);
    reg.process_datagram(&second, &service, 10);
    let rec = lookup(&reg.snapshot(), b"printer1.local", 631).unwrap();
    assert_eq!(rec.addresses, vec![u32::from_be_bytes([192, 168, 1, 50])]);
}

#[test]
fn same_host_different_ports_are_distinct() {
    let mut reg = Registry::new();
    let host = b"host.local".to_vec();
    reg.upsert(&host, 80, 0);
    reg.upsert(&host, 443, 0);
    let snap = reg.snapshot();
    assert_eq!(snap.len(), 2);
    assert!(lookup(&snap, b"host.local", 80).is_some());
    assert!(lookup(&snap, b"host.local", 443).is_some());
    // an address reaches both services of that host
    reg.add_address_for_host(&host, 1);
    let snap = reg.snapshot();
    assert_eq!(lookup(&snap, b"host.local", 80).unwrap().addresses, vec![1]);
    assert_eq!(lookup(&snap, b"host.local", 443).unwrap().addresses, vec![1]);
}

#[test]
fn fresh_registry_snapshot_is_empty() {
    // with no interface answering, nothing is ever processed and the
    // snapshot stays empty
    let reg = Registry::new();
    assert!(reg.snapshot().is_empty());
}
