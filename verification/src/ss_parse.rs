//! Parser for the socket-statistics command output: one port record per
//! line that exposes a socket address with a nonzero port, with optional
//! process-ownership annotations.

use vstd::prelude::*;

use crate::records::{PortInfo, RecordModel};
use crate::strutil::{
    chars_eq_str, chars_of, dec_parse_ok, dec_val, find_char_from, find_from_spec, find_sub_from,
    find_sub_spec, is_digit, lines_spec, parse_dec_u16, parse_dec_u32, rfind_char, rfind_spec,
    split_lines_chars, split_ws, split_ws_chars, string_of, subrange_vec, trim_chars, trim_spec,
};

verus! {

// ───────────────────────── address extraction ─────────────────────────

/// Whether a whitespace token looks like a socket address: it holds a
/// dot, a bracket or a double colon, or starts with a wildcard star.
pub open spec fn looks_like_address(t: Seq<char>) -> bool {
    find_from_spec(t, '.', 0) is Some || find_from_spec(t, '[', 0) is Some || find_sub_spec(
        t,
        "::"@,
        0,
    ) is Some || (t.len() > 0 && t[0] == '*')
}

/// `s` without its run of leading `c` characters.
pub open spec fn strip_leading(s: Seq<char>, c: char) -> Seq<char>
    decreases s.len(),
{
    if s.len() > 0 && s[0] == c {
        strip_leading(s.drop_first(), c)
    } else {
        s
    }
}

/// `s` without its run of trailing `c` characters.
pub open spec fn strip_trailing(s: Seq<char>, c: char) -> Seq<char>
    decreases s.len(),
{
    if s.len() > 0 && s.last() == c {
        strip_trailing(s.drop_last(), c)
    } else {
        s
    }
}

/// Address cleanup for presentation: brackets removed, any `%interface`
/// suffix dropped, and a bare wildcard star shown as the all-zero
/// address.
pub open spec fn clean_address_spec(a: Seq<char>) -> Seq<char> {
    let c = strip_trailing(strip_leading(a, '['), ']');
    match find_from_spec(c, '%', 0) {
        Some(i) => c.take(i),
        None => if c == "*"@ {
            "0.0.0.0"@
        } else {
            c
        },
    }
}

/// The address and port carried by one token, if any: the token must
/// look like an address, split at its last colon, and the part after
/// the colon must be a nonzero decimal port (a star there marks the
/// remote-address wildcard and is rejected).
pub open spec fn token_addr_port(t: Seq<char>) -> Option<(Seq<char>, u16)> {
    if !looks_like_address(t) {
        None
    } else {
        match rfind_spec(t, ':') {
            None => None,
            Some(ci) => {
                let addr = t.take(ci);
                let ps = t.skip(ci + 1);
                if ps == "*"@ {
                    None
                } else if dec_parse_ok(ps, u16::MAX as int) && dec_val(ps) > 0 {
                    Some((clean_address_spec(addr), dec_val(ps) as u16))
                } else {
                    None
                }
            },
        }
    }
}

/// The first token that yields an address and port.
pub open spec fn extract_addr_port_toks(toks: Seq<Seq<char>>) -> Option<(Seq<char>, u16)>
    decreases toks.len(),
{
    if toks.len() == 0 {
        None
    } else {
        match token_addr_port(toks[0]) {
            Some(r) => Some(r),
            None => extract_addr_port_toks(toks.drop_first()),
        }
    }
}

/// The local address and port of a command-output line.
pub open spec fn extract_addr_port_model(line: Seq<char>) -> Option<(Seq<char>, u16)> {
    extract_addr_port_toks(split_ws(line))
}

/// Address cleanup on characters.
fn clean_address_chars(a: &[char]) -> (r: Vec<char>)
    ensures
        r@ == clean_address_spec(a@),
{
    let n = a.len();
    let mut i: usize = 0;
    proof {
        assert(a@.skip(0) =~= a@);
    }
    while i < n && a[i] == '['
        invariant
            i <= n,
            n == a@.len(),
            strip_leading(a@, '[') == strip_leading(a@.skip(i as int), '['),
        decreases n - i,
    {
        proof {
            assert(a@.skip(i as int).drop_first() =~= a@.skip(i as int + 1));
        }
        i = i + 1;
    }
    proof {
        assert(strip_leading(a@, '[') == a@.skip(i as int)) by {
            if i < n {
                assert(a@.skip(i as int)[0] == a@[i as int]);
            } else {
                assert(a@.skip(i as int).len() == 0);
            }
        }
    }
    let mut j: usize = n;
    while j > i && a[j - 1] == ']'
        invariant
            i <= j <= n,
            n == a@.len(),
            strip_leading(a@, '[') == a@.skip(i as int),
            strip_trailing(a@.skip(i as int), ']') == strip_trailing(
                a@.subrange(i as int, j as int),
                ']',
            ),
        decreases j,
    {
        proof {
            let cur = a@.subrange(i as int, j as int);
            assert(cur.last() == a@[j as int - 1]);
            assert(cur.drop_last() =~= a@.subrange(i as int, j as int - 1));
        }
        j = j - 1;
    }
    proof {
        assert(a@.skip(i as int) =~= a@.subrange(i as int, n as int));
        let cur = a@.subrange(i as int, j as int);
        if j > i {
            assert(cur.last() == a@[j as int - 1]);
        }
        assert(strip_trailing(cur, ']') == cur);
    }
    let c = subrange_vec(a, i, j);
    match find_char_from(c.as_slice(), '%', 0) {
        Some(k) => {
            let r = subrange_vec(c.as_slice(), 0, k);
            proof {
                assert(c@.subrange(0, k as int) =~= c@.take(k as int));
            }
            r
        },
        None => {
            if chars_eq_str(c.as_slice(), "*") {
                chars_of("0.0.0.0")
            } else {
                c
            }
        },
    }
}

/// The address and port carried by one token, on characters.
fn token_addr_port_chars(t: &[char]) -> (r: Option<(Vec<char>, u16)>)
    ensures
        match r {
            Some(p) => token_addr_port(t@) == Some((p.0@, p.1)),
            None => token_addr_port(t@) is None,
        },
{
    let has_dot = match find_char_from(t, '.', 0) {
        Some(_) => true,
        None => false,
    };
    let has_bracket = match find_char_from(t, '[', 0) {
        Some(_) => true,
        None => false,
    };
    let has_cc = match find_sub_from(t, "::", 0) {
        Some(_) => true,
        None => false,
    };
    let has_star = t.len() > 0 && t[0] == '*';
    if !(has_dot || has_bracket || has_cc || has_star) {
        return None;
    }
    let ci = match rfind_char(t, ':') {
        Some(ci) => ci,
        None => {
            return None;
        },
    };
    let ps = subrange_vec(t, ci + 1, t.len());
    proof {
        assert(ps@ =~= t@.skip(ci as int + 1));
    }
    if chars_eq_str(ps.as_slice(), "*") {
        return None;
    }
    match parse_dec_u16(ps.as_slice()) {
        Some(port) => {
            if port > 0 {
                let addr = subrange_vec(t, 0, ci);
                proof {
                    assert(addr@ =~= t@.take(ci as int));
                }
                let cleaned = clean_address_chars(addr.as_slice());
                Some((cleaned, port))
            } else {
                None
            }
        },
        None => None,
    }
}

/// Extract the local address and the port number from a command-output
/// line, scanning its whitespace tokens.
pub fn extract_address_and_port(line: &str) -> (r: Option<(String, u16)>)
    ensures
        r.deep_view() == extract_addr_port_model(line@),
{
    let cs = chars_of(line);
    match extract_addr_port_chars(cs.as_slice()) {
        Some(p) => Some((string_of(p.0.as_slice()), p.1)),
        None => None,
    }
}

/// Token scan on characters.
fn extract_addr_port_chars(cs: &[char]) -> (r: Option<(Vec<char>, u16)>)
    ensures
        match r {
            Some(p) => extract_addr_port_model(cs@) == Some((p.0@, p.1)),
            None => extract_addr_port_model(cs@) is None,
        },
{
    let toks = split_ws_chars(cs);
    let ghost tv = toks.deep_view();
    let n = toks.len();
    let mut i: usize = 0;
    proof {
        assert(tv.skip(0) =~= tv);
    }
    while i < n
        invariant
            i <= n,
            n == toks@.len(),
            tv == toks.deep_view(),
            tv.len() == n,
            tv == split_ws(cs@),
            extract_addr_port_toks(tv) == extract_addr_port_toks(tv.skip(i as int)),
        decreases n - i,
    {
        proof {
            assert(tv[i as int] == toks@[i as int]@);
            assert(tv.skip(i as int)[0] == tv[i as int]);
            assert(tv.skip(i as int).drop_first() =~= tv.skip(i as int + 1));
        }
        match token_addr_port_chars(toks[i].as_slice()) {
            Some(p) => {
                return Some(p);
            },
            None => {},
        }
        i = i + 1;
    }
    proof {
        assert(tv.skip(n as int).len() == 0);
    }
    None
}

// ───────────────────────── owner extraction ─────────────────────────

/// The end of the run of decimal digits starting at `i`.
pub open spec fn digits_end(s: Seq<char>, i: int) -> int
    decreases s.len() - i,
{
    if 0 <= i < s.len() && is_digit(s[i]) {
        digits_end(s, i + 1)
    } else {
        i
    }
}

fn is_digit_char(c: char) -> (r: bool)
    ensures
        r == is_digit(c),
{
    let u = c as u32;
    48 <= u && u <= 57
}

fn digits_end_exec(cs: &[char], from: usize) -> (r: usize)
    requires
        from <= cs@.len(),
    ensures
        from <= r <= cs@.len(),
        r == digits_end(cs@, from as int),
{
    let n = cs.len();
    let mut i: usize = from;
    while i < n && is_digit_char(cs[i])
        invariant
            from <= i <= n,
            n == cs@.len(),
            digits_end(cs@, from as int) == digits_end(cs@, i as int),
        decreases n - i,
    {
        i = i + 1;
    }
    i
}

/// The process owner named by the `users:(("name",pid=N,...))` section
/// of a line: the quoted name and the decimal value after `pid=`.
/// Absent or malformed sections yield nothing.
pub open spec fn owner_model(line: Seq<char>) -> Option<(u32, Seq<char>)> {
    match find_sub_spec(line, "users:(("@, 0) {
        None => None,
        Some(u) => {
            let sec = line.skip(u);
            match find_sub_spec(sec, "((\""@, 0) {
                None => None,
                Some(q) => {
                    let name_start = q + 3;
                    match find_from_spec(sec, '"', name_start) {
                        None => None,
                        Some(name_end) => {
                            let name = sec.subrange(name_start, name_end);
                            match find_sub_spec(sec, "pid="@, 0) {
                                None => None,
                                Some(p) => {
                                    let pid_start = p + 4;
                                    let ds = sec.subrange(pid_start, digits_end(sec, pid_start));
                                    if dec_parse_ok(ds, u32::MAX as int) {
                                        Some(((dec_val(ds) as u32), name))
                                    } else {
                                        None
                                    }
                                },
                            }
                        },
                    }
                },
            }
        },
    }
}

/// Owner extraction on characters.
fn owner_chars(cs: &[char]) -> (r: Option<(u32, Vec<char>)>)
    ensures
        match r {
            Some(o) => owner_model(cs@) == Some((o.0, o.1@)),
            None => owner_model(cs@) is None,
        },
{
    let u = match find_sub_from(cs, "users:((", 0) {
        Some(u) => u,
        None => {
            return None;
        },
    };
    proof {
        reveal_strlit("users:((");
        assert("users:(("@.len() == 8);
    }
    let sec = subrange_vec(cs, u, cs.len());
    proof {
        assert(sec@ =~= cs@.skip(u as int));
    }
    let q = match find_sub_from(sec.as_slice(), "((\"", 0) {
        Some(q) => q,
        None => {
            return None;
        },
    };
    proof {
        reveal_strlit("((\"");
        assert("((\""@.len() == 3);
    }
    let name_start = q + 3;
    let name_end = match find_char_from(sec.as_slice(), '"', name_start) {
        Some(e) => e,
        None => {
            return None;
        },
    };
    let name = subrange_vec(sec.as_slice(), name_start, name_end);
    let p = match find_sub_from(sec.as_slice(), "pid=", 0) {
        Some(p) => p,
        None => {
            return None;
        },
    };
    proof {
        reveal_strlit("pid=");
        assert("pid="@.len() == 4);
    }
    let pid_start = p + 4;
    let pid_end = digits_end_exec(sec.as_slice(), pid_start);
    let ds = subrange_vec(sec.as_slice(), pid_start, pid_end);
    match parse_dec_u32(ds.as_slice()) {
        Some(pid) => Some((pid, name)),
        None => None,
    }
}

/// Extract the owning process id and name from the `users:` section of
/// a command-output line, if the line has a well-formed one.
pub fn extract_process_info(line: &str) -> (r: Option<(u32, String)>)
    ensures
        r.deep_view() == owner_model(line@),
{
    let cs = chars_of(line);
    match owner_chars(cs.as_slice()) {
        Some(o) => Some((o.0, string_of(o.1.as_slice()))),
        None => None,
    }
}

/// Cleanup of one raw socket address for presentation.
pub fn clean_address(addr: &str) -> (r: String)
    ensures
        r@ == clean_address_spec(addr@),
{
    let cs = chars_of(addr);
    let cleaned = clean_address_chars(cs.as_slice());
    string_of(cleaned.as_slice())
}

// ───────────────────────── line and output parsing ─────────────────────────

/// The record of one command-output line: nothing for a blank line or
/// one without an address and port; otherwise the address, the port and
/// the owner, the latter defaulting to pid 0 and the unknown name.
pub open spec fn parse_ss_line_model(line: Seq<char>, protocol: Seq<char>) -> Option<RecordModel> {
    let t = trim_spec(line);
    if t.len() == 0 {
        None
    } else {
        match extract_addr_port_model(t) {
            None => None,
            Some(ap) => {
                let owner = match owner_model(t) {
                    Some(o) => o,
                    None => (0u32, "desconocido"@),
                };
                Some(
                    RecordModel {
                        protocol: protocol,
                        port: ap.1,
                        local_address: ap.0,
                        pid: owner.0,
                        process_name: owner.1,
                    },
                )
            },
        }
    }
}

/// Line parsing on characters.
fn parse_ss_line_chars(cs: &[char], protocol: &str) -> (r: Option<PortInfo>)
    ensures
        r.deep_view() == parse_ss_line_model(cs@, protocol@),
{
    let t = trim_chars(cs);
    if t.len() == 0 {
        return None;
    }
    let ap = match extract_addr_port_chars(t.as_slice()) {
        Some(ap) => ap,
        None => {
            return None;
        },
    };
    let (pid, name) = match owner_chars(t.as_slice()) {
        Some(o) => (o.0, string_of(o.1.as_slice())),
        None => (0u32, String::from_str("desconocido")),
    };
    Some(
        PortInfo {
            protocol: String::from_str(protocol),
            port: ap.1,
            local_address: string_of(ap.0.as_slice()),
            pid: pid,
            process_name: name,
        },
    )
}

/// Parse one line of the command output, tagging the record with the
/// given protocol name.
pub fn parse_single_ss_line(line: &str, protocol: &str) -> (r: Option<PortInfo>)
    ensures
        r.deep_view() == parse_ss_line_model(line@, protocol@),
{
    let cs = chars_of(line);
    parse_ss_line_chars(cs.as_slice(), protocol)
}

/// The records of a sequence of lines, in order, skipping lines that
/// yield none.
pub open spec fn parse_ss_lines_model(ls: Seq<Seq<char>>, protocol: Seq<char>) -> Seq<RecordModel>
    decreases ls.len(),
{
    if ls.len() == 0 {
        Seq::empty()
    } else {
        let rest = parse_ss_lines_model(ls.drop_first(), protocol);
        match parse_ss_line_model(ls[0], protocol) {
            Some(r) => seq![r] + rest,
            None => rest,
        }
    }
}

/// The records of a whole command output.
pub open spec fn parse_ss_output_model(text: Seq<char>, protocol: Seq<char>) -> Seq<RecordModel> {
    parse_ss_lines_model(lines_spec(text), protocol)
}

/// Parse the whole command output line by line.
pub fn parse_ss_output(output: &str, protocol: &str) -> (r: Vec<PortInfo>)
    ensures
        r.deep_view() == parse_ss_output_model(output@, protocol@),
{
    let cs = chars_of(output);
    let ls = split_lines_chars(cs.as_slice());
    let ghost lv = ls.deep_view();
    let n = ls.len();
    let mut r: Vec<PortInfo> = Vec::new();
    let mut i: usize = 0;
    proof {
        assert(lv.skip(0) =~= lv);
        assert(r.deep_view() + parse_ss_lines_model(lv, protocol@) =~= parse_ss_lines_model(
            lv,
            protocol@,
        ));
    }
    while i < n
        invariant
            i <= n,
            n == ls@.len(),
            lv == ls.deep_view(),
            lv.len() == n,
            lv == lines_spec(cs@),
            cs@ == output@,
            parse_ss_lines_model(lv, protocol@) == r.deep_view() + parse_ss_lines_model(
                lv.skip(i as int),
                protocol@,
            ),
        decreases n - i,
    {
        proof {
            assert(lv[i as int] == ls@[i as int]@);
            assert(lv.skip(i as int)[0] == lv[i as int]);
            assert(lv.skip(i as int).drop_first() =~= lv.skip(i as int + 1));
        }
        let ghost pre = r.deep_view();
        match parse_ss_line_chars(ls[i].as_slice(), protocol) {
            Some(p) => {
                let ghost pv = p@;
                r.push(p);
                proof {
                    assert(r.deep_view() =~~= pre.push(pv));
                    assert(pre + (seq![pv] + parse_ss_lines_model(lv.skip(i as int + 1), protocol@))
                        =~= pre.push(pv) + parse_ss_lines_model(lv.skip(i as int + 1), protocol@));
                }
            },
            None => {},
        }
        i = i + 1;
    }
    proof {
        assert(lv.skip(n as int).len() == 0);
        assert(r.deep_view() + Seq::<RecordModel>::empty() =~= r.deep_view());
    }
    r
}

} // verus!
