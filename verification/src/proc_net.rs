//! Parser for the kernel socket-table files: fixed-width hexadecimal
//! rows, filtered by socket state, with owners attached through the
//! inode map.

use vstd::prelude::*;

use crate::owners::InodeOwnerMap;
use crate::records::{PortInfo, RecordModel};
use crate::strutil::{
    chars_eq_str, chars_of, dec_chars, dec_parse_ok, dec_val, find_char_from, find_from_spec,
    hex_parse_ok, hex_val, lines_spec, parse_dec_u64, parse_hex_u16, parse_hex_u32,
    split_lines_chars, split_ws, split_ws_chars, str_eq, string_of, subrange_vec, u64_to_chars,
};

verus! {

// ───────────────────────── hexadecimal addresses ─────────────────────────

/// The dotted-quad form of a 32-bit address read from the kernel table,
/// whose bytes are stored in reverse (host-native little-endian) order.
pub open spec fn ipv4_chars(ip: int) -> Seq<char> {
    dec_chars(ip % 256) + "."@ + dec_chars((ip / 256) % 256) + "."@ + dec_chars(
        (ip / 65536) % 256,
    ) + "."@ + dec_chars((ip / 16777216) % 256)
}

/// The decoded form of a kernel-table local address `HEXADDR:HEXPORT`:
/// the port is the hexadecimal value after the single colon; an 8-digit
/// address is IPv4 in reversed byte order; a 32-digit address is IPv6,
/// rendered exactly for the all-zero and loopback encodings and as an
/// abbreviated `[first4...last4]` placeholder otherwise; any other
/// length is rejected.
pub open spec fn parse_hex_address_model(t: Seq<char>) -> Option<(Seq<char>, u16)> {
    match find_from_spec(t, ':', 0) {
        None => None,
        Some(ci) => if find_from_spec(t, ':', ci + 1) is Some {
            None
        } else {
            let hx = t.take(ci);
            let pp = t.skip(ci + 1);
            if !hex_parse_ok(pp, u16::MAX as int) {
                None
            } else {
                let port = hex_val(pp) as u16;
                if hx.len() == 8 {
                    if hex_parse_ok(hx, u32::MAX as int) {
                        Some((ipv4_chars(hex_val(hx)), port))
                    } else {
                        None
                    }
                } else if hx.len() == 32 {
                    if hx == "00000000000000000000000000000000"@ {
                        Some(("[::]"@, port))
                    } else if hx == "00000000000000000000000001000000"@ {
                        Some(("[::1]"@, port))
                    } else {
                        Some(("["@ + hx.take(4) + "..."@ + hx.skip(28) + "]"@, port))
                    }
                } else {
                    None
                }
            }
        },
    }
}

/// Format one address byte group of the reversed 32-bit value.
fn ipv4_format(ip: u32) -> (r: Vec<char>)
    ensures
        r@ == ipv4_chars(ip as int),
{
    let mut v: Vec<char> = Vec::new();
    let b0 = u64_to_chars((ip % 256) as u64);
    crate::strutil::append_chars(&mut v, b0.as_slice());
    crate::strutil::append_str(&mut v, ".");
    let b1 = u64_to_chars(((ip / 256) % 256) as u64);
    crate::strutil::append_chars(&mut v, b1.as_slice());
    crate::strutil::append_str(&mut v, ".");
    let b2 = u64_to_chars(((ip / 65536) % 256) as u64);
    crate::strutil::append_chars(&mut v, b2.as_slice());
    crate::strutil::append_str(&mut v, ".");
    let b3 = u64_to_chars(((ip / 16777216) % 256) as u64);
    crate::strutil::append_chars(&mut v, b3.as_slice());
    proof {
        assert(v@ =~= ipv4_chars(ip as int));
    }
    v
}

/// Hexadecimal address decoding on characters.
fn parse_hex_address_chars(t: &[char]) -> (r: Option<(Vec<char>, u16)>)
    ensures
        match r {
            Some(p) => parse_hex_address_model(t@) == Some((p.0@, p.1)),
            None => parse_hex_address_model(t@) is None,
        },
{
    let n = t.len();
    let ci = match find_char_from(t, ':', 0) {
        Some(ci) => ci,
        None => {
            return None;
        },
    };
    match find_char_from(t, ':', ci + 1) {
        Some(_) => {
            return None;
        },
        None => {},
    }
    let hx = subrange_vec(t, 0, ci);
    let pp = subrange_vec(t, ci + 1, t.len());
    proof {
        assert(hx@ =~= t@.take(ci as int));
        assert(pp@ =~= t@.skip(ci as int + 1));
    }
    let port = match parse_hex_u16(pp.as_slice()) {
        Some(p) => p,
        None => {
            return None;
        },
    };
    if hx.len() == 8 {
        match parse_hex_u32(hx.as_slice()) {
            Some(ip) => Some((ipv4_format(ip), port)),
            None => None,
        }
    } else if hx.len() == 32 {
        if chars_eq_str(hx.as_slice(), "00000000000000000000000000000000") {
            Some((chars_of("[::]"), port))
        } else if chars_eq_str(hx.as_slice(), "00000000000000000000000001000000") {
            Some((chars_of("[::1]"), port))
        } else {
            let mut v: Vec<char> = Vec::new();
            crate::strutil::append_str(&mut v, "[");
            let head = subrange_vec(hx.as_slice(), 0, 4);
            crate::strutil::append_chars(&mut v, head.as_slice());
            crate::strutil::append_str(&mut v, "...");
            let tail = subrange_vec(hx.as_slice(), 28, 32);
            crate::strutil::append_chars(&mut v, tail.as_slice());
            crate::strutil::append_str(&mut v, "]");
            proof {
                assert(hx@.subrange(0, 4) =~= hx@.take(4));
                assert(hx@.subrange(28, 32) =~= hx@.skip(28));
                assert(v@ =~= "["@ + hx@.take(4) + "..."@ + hx@.skip(28) + "]"@);
            }
            Some((v, port))
        }
    } else {
        None
    }
}

/// Decode one kernel-table local address into presentation form and a
/// port number.
pub fn parse_hex_address(hex_addr: &str) -> (r: Option<(String, u16)>)
    ensures
        r.deep_view() == parse_hex_address_model(hex_addr@),
{
    let cs = chars_of(hex_addr);
    match parse_hex_address_chars(cs.as_slice()) {
        Some(p) => Some((string_of(p.0.as_slice()), p.1)),
        None => None,
    }
}

// ───────────────────────── socket inodes ─────────────────────────

/// The inode wrapped by a `socket:[INODE]` link target, if the target
/// has that shape and the digits fit the accepted range.
pub open spec fn socket_inode_model(link: Seq<char>) -> Option<u64> {
    if link.len() >= 9 && link.take(8) == "socket:["@ && link.last() == ']' {
        let ds = link.subrange(8, link.len() - 1);
        if dec_parse_ok(ds, 0x7FFF_FFFF_FFFF_FFFF) {
            Some(dec_val(ds) as u64)
        } else {
            None
        }
    } else {
        None
    }
}

/// Extract the inode from a file-descriptor link target of the shape
/// `socket:[INODE]`.
pub fn extract_socket_inode(link: &str) -> (r: Option<u64>)
    ensures
        r == socket_inode_model(link@),
{
    let cs = chars_of(link);
    let n = cs.len();
    if n < 9 {
        return None;
    }
    let prefix = subrange_vec(cs.as_slice(), 0, 8);
    proof {
        assert(prefix@ =~= cs@.take(8));
    }
    if !chars_eq_str(prefix.as_slice(), "socket:[") {
        return None;
    }
    if cs[n - 1] != ']' {
        return None;
    }
    let ds = subrange_vec(cs.as_slice(), 8, n - 1);
    parse_dec_u64(ds.as_slice())
}

// ───────────────────────── table rows ─────────────────────────

/// The record of one kernel-table row: at least ten whitespace tokens;
/// the state token must be the listening code for TCP and the open code
/// for UDP; the local-address token decodes to a nonzero port; the
/// inode token selects the owner from the map, a zero or unparsable
/// inode or a missing entry yielding the unknown owner.
pub open spec fn proc_line_model(
    line: Seq<char>,
    protocol: Seq<char>,
    m: Map<u64, (u32, Seq<char>)>,
) -> Option<RecordModel> {
    let toks = split_ws(line);
    if toks.len() < 10 {
        None
    } else if protocol == "tcp"@ && toks[3] != "0A"@ {
        None
    } else if protocol == "udp"@ && toks[3] != "07"@ {
        None
    } else {
        match parse_hex_address_model(toks[1]) {
            None => None,
            Some(ap) => {
                if ap.1 == 0 {
                    None
                } else {
                    let inode = if dec_parse_ok(toks[9], 0x7FFF_FFFF_FFFF_FFFF) {
                        dec_val(toks[9]) as u64
                    } else {
                        0
                    };
                    let owner = if inode > 0 && m.contains_key(inode) {
                        m[inode]
                    } else {
                        (0u32, "desconocido"@)
                    };
                    Some(
                        RecordModel {
                            protocol: protocol,
                            port: ap.1,
                            local_address: ap.0,
                            pid: owner.0,
                            process_name: owner.1,
                        },
                    )
                }
            },
        }
    }
}

/// Parse one row of a kernel socket table.
pub fn parse_proc_net_line(line: &str, protocol: &str, inode_map: &InodeOwnerMap) -> (r: Option<
    PortInfo,
>)
    ensures
        r.deep_view() == proc_line_model(line@, protocol@, inode_map@),
{
    let cs = chars_of(line);
    parse_proc_net_line_chars(cs.as_slice(), protocol, inode_map)
}

/// Row parsing on characters.
fn parse_proc_net_line_chars(cs: &[char], protocol: &str, inode_map: &InodeOwnerMap) -> (r: Option<
    PortInfo,
>)
    ensures
        r.deep_view() == proc_line_model(cs@, protocol@, inode_map@),
{
    let toks = split_ws_chars(cs);
    let ghost tv = toks.deep_view();
    proof {
        assert(tv.len() == toks@.len());
    }
    if toks.len() < 10 {
        return None;
    }
    proof {
        assert(tv[3] == toks@[3]@);
        assert(tv[1] == toks@[1]@);
        assert(tv[9] == toks@[9]@);
    }
    let is_tcp = str_eq(protocol, "tcp");
    let is_udp = str_eq(protocol, "udp");
    if is_tcp && !chars_eq_str(toks[3].as_slice(), "0A") {
        return None;
    }
    if is_udp && !chars_eq_str(toks[3].as_slice(), "07") {
        return None;
    }
    let ap = match parse_hex_address_chars(toks[1].as_slice()) {
        Some(ap) => ap,
        None => {
            return None;
        },
    };
    if ap.1 == 0 {
        return None;
    }
    let inode = match parse_dec_u64(toks[9].as_slice()) {
        Some(v) => v,
        None => 0,
    };
    let (pid, name) = if inode > 0 {
        match inode_map.lookup(inode) {
            Some(o) => (o.0, o.1),
            None => (0u32, String::from_str("desconocido")),
        }
    } else {
        (0u32, String::from_str("desconocido"))
    };
    Some(
        PortInfo {
            protocol: String::from_str(protocol),
            port: ap.1,
            local_address: string_of(ap.0.as_slice()),
            pid: pid,
            process_name: name,
        },
    )
}

/// The records of the rows after the header line.
pub open spec fn proc_lines_model(
    ls: Seq<Seq<char>>,
    protocol: Seq<char>,
    m: Map<u64, (u32, Seq<char>)>,
) -> Seq<RecordModel>
    decreases ls.len(),
{
    if ls.len() == 0 {
        Seq::empty()
    } else {
        let rest = proc_lines_model(ls.drop_first(), protocol, m);
        match proc_line_model(ls[0], protocol, m) {
            Some(r) => seq![r] + rest,
            None => rest,
        }
    }
}

/// The records of one whole kernel table text: its header line is
/// skipped, every further row is parsed.
pub open spec fn proc_file_model(
    text: Seq<char>,
    protocol: Seq<char>,
    m: Map<u64, (u32, Seq<char>)>,
) -> Seq<RecordModel> {
    let ls = lines_spec(text);
    if ls.len() == 0 {
        Seq::empty()
    } else {
        proc_lines_model(ls.drop_first(), protocol, m)
    }
}

/// Parse one kernel socket-table file, skipping its header line.
pub fn parse_proc_net_file(content: &str, protocol: &str, inode_map: &InodeOwnerMap) -> (r: Vec<
    PortInfo,
>)
    ensures
        r.deep_view() == proc_file_model(content@, protocol@, inode_map@),
{
    let cs = chars_of(content);
    let ls = split_lines_chars(cs.as_slice());
    let ghost lv = ls.deep_view();
    let n = ls.len();
    let mut r: Vec<PortInfo> = Vec::new();
    if n == 0 {
        proof {
            assert(r.deep_view() =~= Seq::<RecordModel>::empty());
        }
        return r;
    }
    let mut i: usize = 1;
    proof {
        assert(lv.drop_first() =~= lv.skip(1));
        assert(r.deep_view() + proc_lines_model(lv.skip(1), protocol@, inode_map@)
            =~= proc_lines_model(lv.skip(1), protocol@, inode_map@));
    }
    while i < n
        invariant
            1 <= i <= n,
            n == ls@.len(),
            lv == ls.deep_view(),
            lv.len() == n,
            lv == lines_spec(cs@),
            cs@ == content@,
            proc_lines_model(lv.skip(1), protocol@, inode_map@) == r.deep_view()
                + proc_lines_model(lv.skip(i as int), protocol@, inode_map@),
        decreases n - i,
    {
        proof {
            assert(lv[i as int] == ls@[i as int]@);
            assert(lv.skip(i as int)[0] == lv[i as int]);
            assert(lv.skip(i as int).drop_first() =~= lv.skip(i as int + 1));
        }
        let ghost pre = r.deep_view();
        match parse_proc_net_line_chars(ls[i].as_slice(), protocol, inode_map) {
            Some(p) => {
                let ghost pv = p@;
                r.push(p);
                proof {
                    assert(r.deep_view() =~~= pre.push(pv));
                    assert(pre + (seq![pv] + proc_lines_model(
                        lv.skip(i as int + 1),
                        protocol@,
                        inode_map@,
                    )) =~= pre.push(pv) + proc_lines_model(
                        lv.skip(i as int + 1),
                        protocol@,
                        inode_map@,
                    ));
                }
            },
            None => {},
        }
        i = i + 1;
    }
    proof {
        assert(lv.skip(n as int).len() == 0);
        assert(r.deep_view() + Seq::<RecordModel>::empty() =~= r.deep_view());
        assert(lv.drop_first() =~= lv.skip(1));
    }
    r
}

} // verus!
