//! Discovery of TCP/UDP listening sockets on a Linux host, attribution
//! of each socket to the owning process, and controlled termination of
//! those processes.
//!
//! The crate holds the verified core: the parsers for the
//! socket-statistics command output and for the kernel socket-table
//! files, the inode-to-owner map, the reconciliation engine that merges
//! the two sources into one deduplicated, sorted port list, the
//! filtering and pagination helpers of the view layer, and the decision
//! logic of the process terminator and of the tray menu state. All I/O
//! (running the command, reading the kernel files, walking the process
//! listing, sending signals) lives with the caller, who hands raw text
//! in and receives plain values back.

pub mod kill;
pub mod owners;
pub mod paging;
pub mod proc_net;
pub mod reconcile;
pub mod records;
pub mod ss_parse;
pub mod strutil;
pub mod tray;

pub use kill::{
    collect_kill_targets, kill_all_port_processes, kill_begin, kill_step, KillError, KillEvent,
    KillOutcome, KillPhase,
};
pub use owners::InodeOwnerMap;
pub use paging::{filter_ports, get_page, total_pages};
pub use proc_net::{extract_socket_inode, parse_hex_address, parse_proc_net_file,
    parse_proc_net_line};
pub use reconcile::{merge_port_records, scan_open_ports};
pub use records::{PortInfo, ProtocolFilter};
pub use ss_parse::{
    clean_address, extract_address_and_port, extract_process_info, parse_single_ss_line,
    parse_ss_output,
};
pub use tray::{PortSlayerTray, TrayAction, TrayEffect};
