//! The process terminator's decision logic: target validation, the
//! privilege-escalation retry policy, and the aggregation of a batch of
//! termination attempts. The caller performs the actual command
//! invocations and feeds their results back in.

use vstd::prelude::*;

use crate::records::PortInfo;
use crate::strutil::{append_chars, append_str, string_of, u64_to_chars, dec_chars};

verus! {

/// Why a termination failed.
#[derive(Debug)]
pub enum KillError {
    /// Pid 0 denotes an unknown owner and must never be targeted.
    InvalidTarget,
    /// The kill command itself could not be run; carries the message.
    CommandFailed(String),
    /// Both attempts failed; carries the pid and the escalation tool's
    /// diagnostic text.
    PermissionDenied(u32, String),
}

impl KillError {
    /// The reportable message for this failure.
    pub fn message(&self) -> (r: String)
        ensures
            match self {
                KillError::InvalidTarget => r@
                    == "No se puede matar un proceso con PID desconocido (0)"@,
                KillError::CommandFailed(m) => r@ == m@,
                KillError::PermissionDenied(pid, detail) => r@ == "No se pudo matar el proceso "@
                    + dec_chars(*pid as int) + ": "@ + detail@,
            },
    {
        match self {
            KillError::InvalidTarget => String::from_str(
                "No se puede matar un proceso con PID desconocido (0)",
            ),
            KillError::CommandFailed(m) => m.clone(),
            KillError::PermissionDenied(pid, detail) => {
                let mut v: Vec<char> = Vec::new();
                append_str(&mut v, "No se pudo matar el proceso ");
                let pid_chars = u64_to_chars(*pid as u64);
                append_chars(&mut v, pid_chars.as_slice());
                append_str(&mut v, ": ");
                append_str(&mut v, detail.as_str());
                proof {
                    assert(v@ =~= "No se pudo matar el proceso "@ + dec_chars(*pid as int) + ": "@
                        + detail@);
                }
                string_of(v.as_slice())
            },
        }
    }
}

/// Which attempt to run next: the plain kill first, then the
/// privilege-escalated one.
#[derive(Debug, Clone, Copy, PartialEq, Eq, Structural)]
pub enum KillPhase {
    /// Send the kill signal without elevated rights.
    Unprivileged(u32),
    /// Retry through the privilege-escalation front end.
    Elevated(u32),
}

/// What the caller observed of one attempt.
#[derive(Debug)]
pub enum KillEvent {
    /// The command could not be started; carries the spawn error text.
    SpawnFailed(String),
    /// The command ran and exited; carries success and the stderr text.
    Exited(bool, String),
}

/// What to do after an attempt.
#[derive(Debug)]
pub enum KillOutcome {
    /// Run the next attempt.
    Continue(KillPhase),
    /// The process was terminated.
    Done,
    /// Give up with this error.
    Failed(KillError),
}

/// Begin terminating `pid`: pid 0 is rejected before any external
/// command is issued; any other pid starts with an unprivileged
/// attempt.
pub fn kill_begin(pid: u32) -> (r: Result<KillPhase, KillError>)
    ensures
        pid == 0 <==> r matches Err(KillError::InvalidTarget),
        pid != 0 ==> r == Ok::<KillPhase, KillError>(KillPhase::Unprivileged(pid)),
{
    if pid == 0 {
        Err(KillError::InvalidTarget)
    } else {
        Ok(KillPhase::Unprivileged(pid))
    }
}

/// Decide what follows one attempt: success ends the run; an
/// unprivileged failure escalates; an elevated failure reports
/// permission denied with the tool's diagnostic text; a command that
/// could not even be spawned aborts at once.
pub fn kill_step(phase: KillPhase, event: KillEvent) -> (r: KillOutcome)
    ensures
        match phase {
            KillPhase::Unprivileged(p) => match event {
                KillEvent::SpawnFailed(e) => r matches KillOutcome::Failed(
                    KillError::CommandFailed(m),
                ) && m@ == "Error ejecutando kill: "@ + e@,
                KillEvent::Exited(ok, _stderr) => if ok {
                    r == KillOutcome::Done
                } else {
                    r == KillOutcome::Continue(KillPhase::Elevated(p))
                },
            },
            KillPhase::Elevated(p) => match event {
                KillEvent::SpawnFailed(e) => r matches KillOutcome::Failed(
                    KillError::CommandFailed(m),
                ) && m@ == "Error ejecutando pkexec: "@ + e@,
                KillEvent::Exited(ok, stderr) => if ok {
                    r == KillOutcome::Done
                } else {
                    r matches KillOutcome::Failed(KillError::PermissionDenied(q, d)) && q == p
                        && d@ == stderr@
                },
            },
        },
{
    match phase {
        KillPhase::Unprivileged(p) => match event {
            KillEvent::SpawnFailed(e) => {
                let mut v: Vec<char> = Vec::new();
                append_str(&mut v, "Error ejecutando kill: ");
                append_str(&mut v, e.as_str());
                KillOutcome::Failed(KillError::CommandFailed(string_of(v.as_slice())))
            },
            KillEvent::Exited(ok, _stderr) => {
                if ok {
                    KillOutcome::Done
                } else {
                    KillOutcome::Continue(KillPhase::Elevated(p))
                }
            },
        },
        KillPhase::Elevated(p) => match event {
            KillEvent::SpawnFailed(e) => {
                let mut v: Vec<char> = Vec::new();
                append_str(&mut v, "Error ejecutando pkexec: ");
                append_str(&mut v, e.as_str());
                KillOutcome::Failed(KillError::CommandFailed(string_of(v.as_slice())))
            },
            KillEvent::Exited(ok, stderr) => {
                if ok {
                    KillOutcome::Done
                } else {
                    KillOutcome::Failed(KillError::PermissionDenied(p, stderr))
                }
            },
        },
    }
}

// ───────────────────────── batch termination ─────────────────────────

/// The pids to terminate for a port list: every known (nonzero) owner
/// pid, each once, in ascending order.
pub fn collect_kill_targets(ports: &Vec<PortInfo>) -> (r: Vec<u32>)
    ensures
        forall|i: int, j: int| 0 <= i < j < r@.len() ==> r@[i] < r@[j],
        forall|i: int|
            0 <= i < r@.len() ==> #[trigger] r@[i] > 0 && exists|l: int|
                0 <= l < ports@.len() && (#[trigger] ports@[l])@.pid == r@[i],
        forall|l: int|
            0 <= l < ports@.len() ==> ((#[trigger] ports@[l])@.pid > 0 ==> r@.contains(
                ports@[l]@.pid,
            )),
{
    let n = ports.len();
    let mut r: Vec<u32> = Vec::new();
    let mut i: usize = 0;
    while i < n
        invariant
            i <= n,
            n == ports@.len(),
            forall|x: int, y: int| 0 <= x < y < r@.len() ==> r@[x] < r@[y],
            forall|x: int|
                0 <= x < r@.len() ==> #[trigger] r@[x] > 0 && exists|l: int|
                    0 <= l < ports@.len() && (#[trigger] ports@[l])@.pid == r@[x],
            forall|l: int|
                0 <= l < i ==> ((#[trigger] ports@[l])@.pid > 0 ==> r@.contains(ports@[l]@.pid)),
        decreases n - i,
    {
        let pid = ports[i].pid;
        if pid > 0 {
            let ghost pre = r@;
            let m = r.len();
            let mut p: usize = 0;
            while p < m && r[p] < pid
                invariant
                    p <= m,
                    m == r@.len(),
                    forall|x: int| 0 <= x < p ==> r@[x] < pid,
                decreases m - p,
            {
                p = p + 1;
            }
            if p < m && r[p] == pid {
                // already collected
                proof {
                    assert(r@.contains(pre[p as int]));
                }
            } else {
                r.insert(p, pid);
                proof {
                    let post = r@;
                    assert(post =~= pre.insert(p as int, pid));
                    assert forall|x: int, y: int| 0 <= x < y < post.len() implies post[x]
                        < post[y] by {
                        let ox = if x < p {
                            x
                        } else {
                            x - 1
                        };
                        let oy = if y < p {
                            y
                        } else {
                            y - 1
                        };
                        if x == p {
                            assert(post[x] == pid);
                            assert(post[y] == pre[oy]);
                            assert(oy >= p);
                            if p < m {
                                assert(pre[p as int] != pid);
                                assert(!(pre[p as int] < pid));
                            }
                        } else if y == p {
                            assert(post[y] == pid);
                            assert(post[x] == pre[ox]);
                            assert(ox < p);
                        } else {
                            assert(post[x] == pre[ox]);
                            assert(post[y] == pre[oy]);
                        }
                    }
                    assert forall|x: int| 0 <= x < post.len() implies #[trigger] post[x] > 0
                        && exists|l: int|
                        0 <= l < ports@.len() && (#[trigger] ports@[l])@.pid == post[x] by {
                        if x == p {
                            assert(post[x] == pid);
                            assert((ports@[i as int])@.pid == pid);
                        } else {
                            let ox = if x < p {
                                x
                            } else {
                                x - 1
                            };
                            assert(post[x] == pre[ox]);
                        }
                    }
                    assert forall|l: int| 0 <= l < i + 1 implies ((#[trigger] ports@[l])@.pid > 0
                        ==> post.contains(ports@[l]@.pid)) by {
                        if l == i {
                            assert(post[p as int] == pid);
                        } else if ports@[l]@.pid > 0 {
                            assert(pre.contains(ports@[l]@.pid));
                            let w = choose|w: int| 0 <= w < pre.len() && pre[w] == ports@[l]@.pid;
                            if w < p {
                                assert(post[w] == pre[w]);
                            } else {
                                assert(post[w + 1] == pre[w]);
                            }
                        }
                    }
                }
            }
        }
        i = i + 1;
    }
    r
}

/// The number of successful outcomes.
pub open spec fn success_count(os: Seq<Result<(), String>>) -> int
    decreases os.len(),
{
    if os.len() == 0 {
        0
    } else {
        success_count(os.drop_last()) + if os.last() is Ok {
            1int
        } else {
            0int
        }
    }
}

/// The failure messages, in order.
pub open spec fn failure_messages(os: Seq<Result<(), String>>) -> Seq<Seq<char>>
    decreases os.len(),
{
    if os.len() == 0 {
        Seq::empty()
    } else {
        failure_messages(os.drop_last()) + (match os.last() {
            Ok(_) => Seq::<Seq<char>>::empty(),
            Err(m) => seq![m@],
        })
    }
}

/// The messages joined with `"; "`.
pub open spec fn join_messages(msgs: Seq<Seq<char>>) -> Seq<char>
    decreases msgs.len(),
{
    if msgs.len() == 0 {
        Seq::empty()
    } else if msgs.len() == 1 {
        msgs[0]
    } else {
        join_messages(msgs.drop_last()) + "; "@ + msgs.last()
    }
}

/// Aggregate a batch of termination attempts, one outcome per target
/// pid of the scanned list: an empty scan terminates nothing and
/// succeeds; a scan with no known pid is an error; otherwise the count
/// of successes is reported, and only a batch with no success at all
/// fails, with the individual messages joined.
pub fn kill_all_port_processes(ports: &Vec<PortInfo>, outcomes: &Vec<Result<(), String>>) -> (r:
    Result<usize, String>)
    ensures
        ports@.len() == 0 ==> (r matches Ok(c) && c == 0),
        ports@.len() > 0 && outcomes@.len() == 0 ==> (r matches Err(e) && e@
            == "No hay procesos con PID conocido que cerrar"@),
        ports@.len() > 0 && outcomes@.len() > 0 ==> {
            let succ = success_count(outcomes@);
            let fails = failure_messages(outcomes@);
            if fails.len() == 0 || succ > 0 {
                r matches Ok(c) && c == succ
            } else {
                r matches Err(e) && e@ == join_messages(fails)
            }
        },
{
    if ports.len() == 0 {
        return Ok(0);
    }
    let n = outcomes.len();
    if n == 0 {
        return Err(String::from_str("No hay procesos con PID conocido que cerrar"));
    }
    let mut killed: usize = 0;
    let mut fails: Vec<String> = Vec::new();
    let mut i: usize = 0;
    proof {
        assert(outcomes@.take(0) =~= Seq::<Result<(), String>>::empty());
        assert(fails.deep_view() =~= Seq::<Seq<char>>::empty());
    }
    while i < n
        invariant
            i <= n,
            n == outcomes@.len(),
            killed <= i,
            killed == success_count(outcomes@.take(i as int)),
            fails.deep_view() == failure_messages(outcomes@.take(i as int)),
        decreases n - i,
    {
        let ghost pre = fails.deep_view();
        proof {
            assert(outcomes@.take(i as int + 1).drop_last() =~= outcomes@.take(i as int));
            assert(outcomes@.take(i as int + 1).last() == outcomes@[i as int]);
        }
        match &outcomes[i] {
            Ok(_) => {
                killed = killed + 1;
                proof {
                    assert(fails.deep_view() =~= failure_messages(outcomes@.take(i as int + 1)));
                }
            },
            Err(m) => {
                fails.push(m.clone());
                proof {
                    assert(fails.deep_view() =~~= pre.push(m@));
                    assert(pre.push(m@) =~= pre + seq![m@]);
                }
            },
        }
        i = i + 1;
    }
    proof {
        assert(outcomes@.take(n as int) =~= outcomes@);
    }
    if fails.len() == 0 || killed > 0 {
        Ok(killed)
    } else {
        let ghost fdv = fails.deep_view();
        let nf = fails.len();
        let mut v: Vec<char> = Vec::new();
        let mut j: usize = 0;
        proof {
            assert(fdv.take(0) =~= Seq::<Seq<char>>::empty());
        }
        while j < nf
            invariant
                j <= nf,
                nf == fails@.len(),
                fdv == fails.deep_view(),
                fdv.len() == nf,
                v@ == join_messages(fdv.take(j as int)),
            decreases nf - j,
        {
            proof {
                assert(fdv.take(j as int + 1).drop_last() =~= fdv.take(j as int));
                assert(fdv.take(j as int + 1).last() == fdv[j as int]);
                assert(fdv[j as int] == fails@[j as int]@);
            }
            if j > 0 {
                append_str(&mut v, "; ");
            }
            append_str(&mut v, fails[j].as_str());
            proof {
                if j == 0 {
                    assert(v@ =~= join_messages(fdv.take(1)));
                } else {
                    assert(v@ =~= join_messages(fdv.take(j as int + 1)));
                }
            }
            j = j + 1;
        }
        proof {
            assert(fdv.take(nf as int) =~= fdv);
        }
        Err(string_of(v.as_slice()))
    }
}

} // verus!
