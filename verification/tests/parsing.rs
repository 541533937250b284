use portslayer::owners::InodeOwnerMap;
use portslayer::proc_net::{extract_socket_inode, parse_hex_address, parse_proc_net_file,
    parse_proc_net_line};
use portslayer::ss_parse::{clean_address, extract_address_and_port, extract_process_info,
    parse_single_ss_line, parse_ss_output};

#[test]
fn test_parse_empty_line() {
    assert!(parse_single_ss_line("", "tcp").is_none());
    assert!(parse_single_ss_line("   ", "tcp").is_none());
}

#[test]
fn test_parse_ss_line_with_process() {
    let line = r#"LISTEN 0 128 0.0.0.0:8080 0.0.0.0:* users:(("node",pid=12345,fd=19))"#;
    let result = parse_single_ss_line(line, "tcp");
    assert!(result.is_some());

    let info = result.unwrap();
    assert_eq!(info.port, 8080);
    assert_eq!(info.pid, 12345);
    assert_eq!(info.process_name, "node");
    assert_eq!(info.protocol, "tcp");
    assert_eq!(info.local_address, "0.0.0.0");
}

#[test]
fn test_parse_ss_line_without_process() {
    let line = "LISTEN 0 4096       *:8069        *:*";
    let result = parse_single_ss_line(line, "tcp");
    assert!(result.is_some());

    let info = result.unwrap();
    assert_eq!(info.port, 8069);
    assert_eq!(info.pid, 0);
    assert_eq!(info.process_name, "desconocido");
}

#[test]
fn test_parse_ss_wildcard_address() {
    let line = "LISTEN 0 4096  0.0.0.0:3000  0.0.0.0:*";
    let result = parse_single_ss_line(line, "tcp");
    assert!(result.is_some());

    let info = result.unwrap();
    assert_eq!(info.port, 3000);
    assert_eq!(info.local_address, "0.0.0.0");
}

#[test]
fn test_extract_process_info() {
    let line = r#"LISTEN 0 5 127.0.0.1:5432 0.0.0.0:* users:(("postgres",pid=987,fd=3))"#;
    let (pid, name) = extract_process_info(line).unwrap();
    assert_eq!(pid, 987);
    assert_eq!(name, "postgres");
}

#[test]
fn test_extract_process_info_none() {
    let line = "LISTEN 0 4096  *:8069  *:*";
    assert!(extract_process_info(line).is_none());
}

#[test]
fn test_parse_hex_address_ipv4() {
    // 00000000:0BB8 = 0.0.0.0:3000
    let (addr, port) = parse_hex_address("00000000:0BB8").unwrap();
    assert_eq!(port, 3000);
    assert_eq!(addr, "0.0.0.0");
}

#[test]
fn test_parse_hex_address_loopback() {
    // 0100007F:1538 = 127.0.0.1:5432
    let (addr, port) = parse_hex_address("0100007F:1538").unwrap();
    assert_eq!(port, 5432);
    assert_eq!(addr, "127.0.0.1");
}

#[test]
fn test_extract_socket_inode() {
    assert_eq!(extract_socket_inode("socket:[22881]"), Some(22881));
    assert_eq!(extract_socket_inode("pipe:[123]"), None);
    assert_eq!(extract_socket_inode("anon_inode:"), None);
}

#[test]
fn test_clean_address() {
    assert_eq!(clean_address("[::1]"), "::1");
    assert_eq!(clean_address("127.0.0.53%lo"), "127.0.0.53");
    assert_eq!(clean_address("*"), "0.0.0.0");
    assert_eq!(clean_address("0.0.0.0"), "0.0.0.0");
}

#[test]
fn test_extract_address_and_port_direct() {
    let line = "LISTEN 0 128 127.0.0.53%lo:53 0.0.0.0:*";
    let (addr, port) = extract_address_and_port(line).unwrap();
    assert_eq!(addr, "127.0.0.53");
    assert_eq!(port, 53);
    // the remote-address wildcard field never counts as a port
    assert!(extract_address_and_port("x 0.0.0.0:*").is_none());
    // a zero port is rejected
    assert!(extract_address_and_port("x 0.0.0.0:0").is_none());
    // no address-looking token at all
    assert!(extract_address_and_port("LISTEN 0 128").is_none());
}

#[test]
fn test_parse_hex_address_ipv6_forms() {
    let (addr, port) = parse_hex_address("00000000000000000000000000000000:1F90").unwrap();
    assert_eq!(addr, "[::]");
    assert_eq!(port, 8080);
    let (addr, port) = parse_hex_address("00000000000000000000000001000000:0050").unwrap();
    assert_eq!(addr, "[::1]");
    assert_eq!(port, 80);
    let (addr, _) = parse_hex_address("FE800000000000000000000000000001:0050").unwrap();
    assert_eq!(addr, "[FE80...0001]");
}

#[test]
fn test_parse_hex_address_malformed() {
    assert!(parse_hex_address("0BB8").is_none());
    assert!(parse_hex_address("0000:0000:0BB8").is_none());
    assert!(parse_hex_address("000000:0BB8").is_none());
    assert!(parse_hex_address("0000000G:0BB8").is_none());
    assert!(parse_hex_address("00000000:ZZZZ").is_none());
}

#[test]
fn test_parse_ss_output_lines() {
    let out = "LISTEN 0 128 0.0.0.0:8080 0.0.0.0:* users:((\"node\",pid=12345,fd=19))\ngarbage header line\nLISTEN 0 4096  0.0.0.0:3000  0.0.0.0:*\n";
    let records = parse_ss_output(out, "tcp");
    assert_eq!(records.len(), 2);
    assert_eq!(records[0].port, 8080);
    assert_eq!(records[0].pid, 12345);
    assert_eq!(records[1].port, 3000);
    assert_eq!(records[1].pid, 0);
}

#[test]
fn test_parse_proc_net_line_states() {
    let map = InodeOwnerMap::new();
    let listen = "   0: 00000000:1F90 00000000:0000 0A 00000000:00000000 00:00000000 00000000  1000        0 22881 1 0000000000000000 100 0 0 10 0";
    let info = parse_proc_net_line(listen, "tcp", &map).unwrap();
    assert_eq!(info.port, 8080);
    assert_eq!(info.local_address, "0.0.0.0");
    assert_eq!(info.pid, 0);
    assert_eq!(info.process_name, "desconocido");

    // an established TCP socket (state 01) is skipped
    let established = "   1: 0100007F:1538 0100007F:0001 01 00000000:00000000 00:00000000 00000000  1000        0 22882 1 0000000000000000 100 0 0 10 0";
    assert!(parse_proc_net_line(established, "tcp", &map).is_none());

    // a UDP socket is taken only in the open state (07)
    let udp_open = "   2: 00000000:0035 00000000:0000 07 00000000:00000000 00:00000000 00000000  1000        0 22883 1 0000000000000000 100 0 0 10 0";
    assert!(parse_proc_net_line(udp_open, "udp", &map).is_some());
    let udp_other = "   2: 00000000:0035 00000000:0000 0A 00000000:00000000 00:00000000 00000000  1000        0 22883 1 0000000000000000 100 0 0 10 0";
    assert!(parse_proc_net_line(udp_other, "udp", &map).is_none());

    // short rows are dropped
    assert!(parse_proc_net_line("   0: 00000000:1F90 0A", "tcp", &map).is_none());
}

#[test]
fn test_parse_proc_net_file_owner_lookup() {
    let mut map = InodeOwnerMap::new();
    map.insert(22881, 4242, String::from("nginx"));
    let content = "  sl  local_address rem_address   st tx_queue rx_queue tr tm->when retrnsmt   uid  timeout inode\n   0: 0100007F:1F90 00000000:0000 0A 00000000:00000000 00:00000000 00000000  1000        0 22881 1 0000000000000000 100 0 0 10 0\n";
    let records = parse_proc_net_file(content, "tcp", &map);
    assert_eq!(records.len(), 1);
    assert_eq!(records[0].port, 8080);
    assert_eq!(records[0].local_address, "127.0.0.1");
    assert_eq!(records[0].pid, 4242);
    assert_eq!(records[0].process_name, "nginx");
}

#[test]
fn test_inode_owner_map_replaces() {
    let mut map = InodeOwnerMap::new();
    assert!(map.lookup(7).is_none());
    map.insert(7, 100, String::from("old"));
    map.insert(7, 200, String::from("new"));
    let (pid, name) = map.lookup(7).unwrap();
    assert_eq!(pid, 200);
    assert_eq!(name, "new");
    assert!(map.lookup(8).is_none());
}
