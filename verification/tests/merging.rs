use portslayer::owners::InodeOwnerMap;
use portslayer::reconcile::{merge_port_records, scan_open_ports};
use portslayer::records::PortInfo;
use portslayer::ss_parse::parse_ss_output;

fn record(protocol: &str, port: u16, pid: u32, name: &str) -> PortInfo {
    PortInfo {
        protocol: protocol.to_string(),
        port,
        local_address: "0.0.0.0".to_string(),
        pid,
        process_name: name.to_string(),
    }
}

#[test]
fn test_merge_idempotent() {
    let a = vec![record("tcp", 80, 1, "nginx"), record("udp", 53, 2, "dnsmasq")];
    let merged = merge_port_records(&a, &a);
    assert_eq!(merged.len(), 2);
    assert_eq!(merged[0].port, 53);
    assert_eq!(merged[0].protocol, "udp");
    assert_eq!(merged[0].pid, 2);
    assert_eq!(merged[1].port, 80);
    assert_eq!(merged[1].protocol, "tcp");
    assert_eq!(merged[1].pid, 1);
    // merging the merged list with itself changes nothing
    let twice = merge_port_records(&merged, &merged);
    assert_eq!(twice.len(), 2);
    assert_eq!(twice[0].port, merged[0].port);
    assert_eq!(twice[0].pid, merged[0].pid);
    assert_eq!(twice[1].port, merged[1].port);
    assert_eq!(twice[1].pid, merged[1].pid);
}

#[test]
fn test_merge_empty_secondary() {
    let a = vec![record("tcp", 22, 9, "sshd"), record("tcp", 80, 1, "nginx")];
    let merged = merge_port_records(&a, &Vec::new());
    assert_eq!(merged.len(), 2);
    assert_eq!(merged[0].port, 22);
    assert_eq!(merged[0].process_name, "sshd");
    assert_eq!(merged[1].port, 80);
    assert_eq!(merged[1].process_name, "nginx");
}

#[test]
fn test_merge_prefers_known_owner() {
    // the primary record knows the owner, the secondary does not
    let a = vec![record("tcp", 8080, 12345, "node")];
    let b = vec![record("tcp", 8080, 0, "desconocido")];
    let merged = merge_port_records(&a, &b);
    assert_eq!(merged.len(), 1);
    assert_eq!(merged[0].pid, 12345);
    assert_eq!(merged[0].process_name, "node");
}

#[test]
fn test_merge_upgrades_within_primary() {
    // within the primary set, a later record with a known owner
    // replaces an earlier ownerless one for the same key
    let a = vec![record("tcp", 8080, 0, "desconocido"), record("tcp", 8080, 7, "node")];
    let merged = merge_port_records(&a, &Vec::new());
    assert_eq!(merged.len(), 1);
    assert_eq!(merged[0].pid, 7);
    assert_eq!(merged[0].process_name, "node");
}

#[test]
fn test_merge_secondary_never_downgrades() {
    // the secondary source only fills keys that the primary lacks
    let a = vec![record("tcp", 80, 1, "nginx")];
    let b = vec![record("tcp", 80, 99, "impostor"), record("udp", 53, 0, "desconocido")];
    let merged = merge_port_records(&a, &b);
    assert_eq!(merged.len(), 2);
    assert_eq!(merged[0].protocol, "udp");
    assert_eq!(merged[0].port, 53);
    assert_eq!(merged[0].pid, 0);
    assert_eq!(merged[1].protocol, "tcp");
    assert_eq!(merged[1].port, 80);
    assert_eq!(merged[1].pid, 1);
}

#[test]
fn test_merge_sorts_by_port_then_protocol() {
    let a = vec![
        record("udp", 100, 1, "a"),
        record("tcp", 100, 2, "b"),
        record("tcp", 5, 3, "c"),
    ];
    let merged = merge_port_records(&a, &Vec::new());
    assert_eq!(merged.len(), 3);
    assert_eq!((merged[0].port, merged[0].protocol.as_str()), (5, "tcp"));
    assert_eq!((merged[1].port, merged[1].protocol.as_str()), (100, "tcp"));
    assert_eq!((merged[2].port, merged[2].protocol.as_str()), (100, "udp"));
}

#[test]
fn test_scan_end_to_end() {
    // the command output exposes port 8080 owned by pid 12345 "node";
    // a kernel table separately exposes the same port with no owner
    let ss_tcp = "LISTEN 0 128 0.0.0.0:8080 0.0.0.0:* users:((\"node\",pid=12345,fd=19))\n";
    let kernel = "  sl  local_address rem_address   st tx_queue rx_queue tr tm->when retrnsmt   uid  timeout inode\n   0: 00000000:1F90 00000000:0000 0A 00000000:00000000 00:00000000 00000000  1000        0 0 1\n";
    let map = InodeOwnerMap::new();
    let tables = vec![(kernel.to_string(), "tcp".to_string())];
    let merged = scan_open_ports(&Some(ss_tcp.to_string()), &None, &tables, &map);
    assert_eq!(merged.len(), 1);
    assert_eq!(merged[0].protocol, "tcp");
    assert_eq!(merged[0].port, 8080);
    assert_eq!(merged[0].pid, 12345);
    assert_eq!(merged[0].process_name, "node");
}

#[test]
fn test_scan_combines_sources() {
    // a port only the kernel table knows still reaches the merged list
    let ss_tcp = "LISTEN 0 128 127.0.0.1:631 0.0.0.0:* users:((\"cupsd\",pid=77,fd=4))\n";
    let kernel = "header\n   0: 0100007F:1538 00000000:0000 0A 00000000:00000000 00:00000000 00000000  1000        0 0 1\n";
    let map = InodeOwnerMap::new();
    let tables = vec![(kernel.to_string(), "tcp".to_string())];
    let merged = scan_open_ports(&Some(ss_tcp.to_string()), &None, &tables, &map);
    assert_eq!(merged.len(), 2);
    assert_eq!(merged[0].port, 631);
    assert_eq!(merged[0].pid, 77);
    assert_eq!(merged[1].port, 5432);
    assert_eq!(merged[1].local_address, "127.0.0.1");
    assert_eq!(merged[1].pid, 0);
}

#[test]
fn test_scan_with_no_sources_is_empty() {
    let map = InodeOwnerMap::new();
    let merged = scan_open_ports(&None, &None, &Vec::new(), &map);
    assert!(merged.is_empty());
}

#[test]
fn test_parse_then_merge_uses_parser_output() {
    let parsed = parse_ss_output("LISTEN 0 128 0.0.0.0:443 0.0.0.0:* users:((\"caddy\",pid=31,fd=6))\n", "tcp");
    let merged = merge_port_records(&parsed, &Vec::new());
    assert_eq!(merged.len(), 1);
    assert_eq!(merged[0].port, 443);
    assert_eq!(merged[0].process_name, "caddy");
}
