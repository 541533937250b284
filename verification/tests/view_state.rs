use portslayer::paging::{filter_ports, get_page, total_pages};
use portslayer::records::{PortInfo, ProtocolFilter};
use portslayer::tray::{PortSlayerTray, TrayAction, TrayEffect, DEFAULT_PAGE_SIZE};

fn record(protocol: &str, port: u16, pid: u32, name: &str) -> PortInfo {
    PortInfo {
        protocol: protocol.to_string(),
        port,
        local_address: "0.0.0.0".to_string(),
        pid,
        process_name: name.to_string(),
    }
}

#[test]
fn test_filter_ports() {
    let ports = vec![
        PortInfo {
            protocol: "tcp".into(),
            port: 80,
            local_address: "0.0.0.0".into(),
            pid: 1,
            process_name: "nginx".into(),
        },
        PortInfo {
            protocol: "udp".into(),
            port: 53,
            local_address: "0.0.0.0".into(),
            pid: 2,
            process_name: "dnsmasq".into(),
        },
    ];

    assert_eq!(filter_ports(&ports, ProtocolFilter::Tcp).len(), 1);
    assert_eq!(filter_ports(&ports, ProtocolFilter::Udp).len(), 1);
    assert_eq!(filter_ports(&ports, ProtocolFilter::All).len(), 2);
}

#[test]
fn test_pagination() {
    let ports: Vec<PortInfo> = (1..=25)
        .map(|i| PortInfo {
            protocol: "tcp".into(),
            port: i as u16,
            local_address: "0.0.0.0".into(),
            pid: i,
            process_name: format!("proc{}", i),
        })
        .collect();

    // 25 items at 10 per page span 3 pages
    assert_eq!(total_pages(25, 10), 3);

    // page 0: ports 1-10
    let page0 = get_page(&ports, 0, 10);
    assert_eq!(page0.len(), 10);
    assert_eq!(page0[0].port, 1);

    // page 2: ports 21-25
    let page2 = get_page(&ports, 2, 10);
    assert_eq!(page2.len(), 5);
    assert_eq!(page2[0].port, 21);

    // a page beyond the range is empty
    let page_oob = get_page(&ports, 5, 10);
    assert!(page_oob.is_empty());
}

#[test]
fn test_total_pages_edges() {
    // an empty list still spans one page, whatever the page size
    assert_eq!(total_pages(0, 1), 1);
    assert_eq!(total_pages(0, 10), 1);
    assert_eq!(total_pages(0, 0), 1);
    assert_eq!(total_pages(7, 0), 1);
    assert_eq!(total_pages(10, 10), 1);
    assert_eq!(total_pages(11, 10), 2);
}

#[test]
fn test_get_page_zero_size() {
    let ports = vec![record("tcp", 80, 1, "nginx")];
    assert!(get_page(&ports, 0, 0).is_empty());
}

#[test]
fn test_label() {
    assert_eq!(ProtocolFilter::All.label(), "Todos");
    assert_eq!(ProtocolFilter::Tcp.label(), "TCP");
    assert_eq!(ProtocolFilter::Udp.label(), "UDP");
}

#[test]
fn test_display_line() {
    let with_pid = record("tcp", 8080, 1234, "node");
    assert_eq!(with_pid.display_line(), "TCP 8080 (0.0.0.0) → node [PID 1234]");
    let without_pid = record("udp", 53, 0, "desconocido");
    assert_eq!(without_pid.display_line(), "UDP 53 (0.0.0.0) → desconocido");
}

#[test]
fn test_tray_new_and_refresh() {
    let tray = PortSlayerTray::new(vec![record("tcp", 80, 1, "nginx")]);
    assert_eq!(tray.current_page, 0);
    assert_eq!(tray.page_size, DEFAULT_PAGE_SIZE);
    assert_eq!(tray.ports_handle().len(), 1);

    let mut tray = tray;
    tray.current_page = 3;
    tray.refresh_ports(Vec::new());
    assert_eq!(tray.current_page, 0);
    assert!(tray.ports_handle().is_empty());
}

#[test]
fn test_tray_filtering() {
    let mut tray = PortSlayerTray::new(vec![
        record("tcp", 80, 1, "nginx"),
        record("udp", 53, 2, "dnsmasq"),
    ]);
    assert_eq!(tray.get_filtered_ports().len(), 2);
    let effect = tray.apply_action(TrayAction::SetFilter(ProtocolFilter::Udp));
    assert_eq!(effect, TrayEffect::Nothing);
    let filtered = tray.get_filtered_ports();
    assert_eq!(filtered.len(), 1);
    assert_eq!(filtered[0].protocol, "udp");
}

#[test]
fn test_tray_navigation() {
    let ports: Vec<PortInfo> = (1..=25).map(|i| record("tcp", i as u16, i, "p")).collect();
    let mut tray = PortSlayerTray::new(ports);
    assert_eq!(tray.page_count(), 3);
    assert_eq!(tray.visible_page().len(), 10);

    // previous from the first page stays put
    tray.apply_action(TrayAction::PrevPage);
    assert_eq!(tray.current_page, 0);

    tray.apply_action(TrayAction::NextPage);
    assert_eq!(tray.current_page, 1);
    tray.apply_action(TrayAction::NextPage);
    assert_eq!(tray.current_page, 2);
    // next from the last page stays put
    tray.apply_action(TrayAction::NextPage);
    assert_eq!(tray.current_page, 2);
    assert_eq!(tray.visible_page().len(), 5);

    tray.apply_action(TrayAction::PrevPage);
    assert_eq!(tray.current_page, 1);

    // shrinking the page size returns to the first page
    tray.apply_action(TrayAction::SetPageSize(5));
    assert_eq!(tray.current_page, 0);
    assert_eq!(tray.page_count(), 5);
    assert_eq!(tray.visible_page().len(), 5);
}

#[test]
fn test_tray_kill_effects() {
    let mut tray = PortSlayerTray::new(vec![record("tcp", 80, 42, "nginx")]);
    assert_eq!(tray.apply_action(TrayAction::KillOne(42)), TrayEffect::RunKill(42));
    assert_eq!(tray.apply_action(TrayAction::KillAll), TrayEffect::RunKillAll);
    assert_eq!(tray.apply_action(TrayAction::Exit), TrayEffect::Quit);
    // none of these touch the view state
    assert_eq!(tray.current_page, 0);
    assert_eq!(tray.ports_handle().len(), 1);

    let effect = tray.apply_action(TrayAction::Refresh(Vec::new()));
    assert_eq!(effect, TrayEffect::Nothing);
    assert!(tray.ports_handle().is_empty());
}
