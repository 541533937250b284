//! The central data model: one record per discovered listening socket,
//! and the protocol filter applied by the view layer.

use vstd::prelude::*;

use crate::strutil::{append_chars, append_str, chars_of, dec_chars, string_of, u64_to_chars};

verus! {

/// Protocol filter for the scanned ports.
#[derive(Debug, Clone, Copy, PartialEq, Eq, Structural)]
pub enum ProtocolFilter {
    /// Show every protocol.
    All,
    /// TCP ports only.
    Tcp,
    /// UDP ports only.
    Udp,
}

impl ProtocolFilter {
    /// Human-readable label shown in the tray menu.
    pub fn label(&self) -> (r: &'static str)
        ensures
            self is All ==> r@ == "Todos"@,
            self is Tcp ==> r@ == "TCP"@,
            self is Udp ==> r@ == "UDP"@,
    {
        match self {
            ProtocolFilter::All => "Todos",
            ProtocolFilter::Tcp => "TCP",
            ProtocolFilter::Udp => "UDP",
        }
    }
}

/// The mathematical model of a `PortInfo`: every textual field as a
/// character sequence.
pub ghost struct RecordModel {
    pub protocol: Seq<char>,
    pub port: u16,
    pub local_address: Seq<char>,
    pub pid: u32,
    pub process_name: Seq<char>,
}

/// Information about one open port on the system.
#[derive(Debug)]
pub struct PortInfo {
    /// Protocol of the port ("tcp" or "udp").
    pub protocol: String,
    /// Port number.
    pub port: u16,
    /// Local address the socket listens on (e.g. "0.0.0.0", "127.0.0.1",
    /// "[::]").
    pub local_address: String,
    /// Process id of the owner (0 when it could not be determined).
    pub pid: u32,
    /// Name of the owning process ("desconocido" when unknown).
    pub process_name: String,
}

impl View for PortInfo {
    type V = RecordModel;

    open spec fn view(&self) -> RecordModel {
        RecordModel {
            protocol: self.protocol@,
            port: self.port,
            local_address: self.local_address@,
            pid: self.pid,
            process_name: self.process_name@,
        }
    }
}

impl DeepView for PortInfo {
    type V = RecordModel;

    open spec fn deep_view(&self) -> RecordModel {
        self@
    }
}

impl Clone for PortInfo {
    fn clone(&self) -> (r: Self)
        ensures
            r == *self,
    {
        PortInfo {
            protocol: self.protocol.clone(),
            port: self.port,
            local_address: self.local_address.clone(),
            pid: self.pid,
            process_name: self.process_name.clone(),
        }
    }
}

/// A record admissible in a merged list: a known protocol and a nonzero
/// port.
pub open spec fn valid_record(r: RecordModel) -> bool {
    (r.protocol == "tcp"@ || r.protocol == "udp"@) && r.port > 0
}

/// Every record of `s` is valid.
pub open spec fn valid_records(s: Seq<RecordModel>) -> bool {
    forall|i: int| 0 <= i < s.len() ==> valid_record(#[trigger] s[i])
}

/// The protocol name in upper case, for the two known protocols.
pub open spec fn upper_protocol(p: Seq<char>) -> Seq<char> {
    if p == "tcp"@ {
        "TCP"@
    } else if p == "udp"@ {
        "UDP"@
    } else {
        p
    }
}

/// The menu line for a record:
/// `TCP 8080 (0.0.0.0) → node [PID 1234]`, without the PID suffix when
/// the owner is unknown.
pub open spec fn display_model(r: RecordModel) -> Seq<char> {
    let head = upper_protocol(r.protocol) + " "@ + dec_chars(r.port as int) + " ("@
        + r.local_address + ") → "@ + r.process_name;
    if r.pid > 0 {
        head + " [PID "@ + dec_chars(r.pid as int) + "]"@
    } else {
        head
    }
}

impl PortInfo {
    /// The menu line for this record.
    pub fn display_line(&self) -> (r: String)
        ensures
            r@ == display_model(self@),
    {
        let mut v: Vec<char> = Vec::new();
        let proto_chars = chars_of(self.protocol.as_str());
        if crate::strutil::chars_eq_str(proto_chars.as_slice(), "tcp") {
            append_str(&mut v, "TCP");
        } else if crate::strutil::chars_eq_str(proto_chars.as_slice(), "udp") {
            append_str(&mut v, "UDP");
        } else {
            append_str(&mut v, self.protocol.as_str());
        }
        append_str(&mut v, " ");
        let port_chars = u64_to_chars(self.port as u64);
        append_chars(&mut v, port_chars.as_slice());
        append_str(&mut v, " (");
        append_str(&mut v, self.local_address.as_str());
        append_str(&mut v, ") → ");
        append_str(&mut v, self.process_name.as_str());
        if self.pid > 0 {
            append_str(&mut v, " [PID ");
            let pid_chars = u64_to_chars(self.pid as u64);
            append_chars(&mut v, pid_chars.as_slice());
            append_str(&mut v, "]");
        }
        proof {
            assert(v@ =~= display_model(self@));
        }
        string_of(v.as_slice())
    }
}

} // verus!
