//! Round-robin choice of the next process to resume.
use vstd::prelude::*;
use crate::cpu::MachineTime;
use crate::process::{Process, ProcessList, ProcessState, with_state};

verus! {

/// The process may run at time `now`: it runs, or it sleeps until no later
/// than `now`.
pub open spec fn runnable(p: Process, now: u64) -> bool {
    p.state == ProcessState::Running || (p.state == ProcessState::Sleeping && p.sleep_until.ticks
        <= now)
}

/// `s` rotated left by `k`.
pub open spec fn rotl(s: Seq<Process>, k: int) -> Seq<Process> {
    s.subrange(k, s.len() as int) + s.subrange(0, k)
}

/// Process `k mod n` is the one that `schedule` picks: the first runnable
/// one after the front, going round.
pub open spec fn picks(s: Seq<Process>, now: u64, k: int) -> bool {
    &&& 1 <= k <= s.len()
    &&& runnable(s[k % s.len() as int], now)
    &&& forall|j: int| 1 <= j < k ==> !runnable(#[trigger] s[j % s.len() as int], now)
}

/// `t` is the list `s` after `schedule` at time `now` returned `r`: `None`
/// with the list kept where nothing may run; else the pid of the first
/// runnable process after the front, which is woken and rotated to the
/// front.
pub open spec fn switched(s: Seq<Process>, t: Seq<Process>, now: u64, r: Option<u16>) -> bool {
    &&& r.is_none() <==> forall|i: int| 0 <= i < s.len() ==> !runnable(#[trigger] s[i], now)
    &&& r.is_none() ==> t == s
    &&& r.is_some() ==> exists|k: int|
        picks(s, now, k) && {
            let m = k % s.len() as int;
            &&& r->0 == s[m].pid
            &&& t == rotl(s, m).update(0, with_state(s[m], ProcessState::Running))
        }
}

/// Picks the process to resume at time `now`: rotates the list left until a
/// runnable process is in front, wakes it if it slept, and returns its pid.
/// `None`, with the list as it was, where no process may run.
pub fn schedule(list: &mut ProcessList, now: MachineTime) -> (r: Option<u16>)
    requires
        old(list).wf(),
    ensures
        final(list).wf(),
        final(list).spec_next_pid() == old(list).spec_next_pid(),
        switched(old(list).view_procs(), final(list).view_procs(), now.ticks, r),
        r.is_none() <==> forall|i: int|
            0 <= i < old(list).view_procs().len() ==> !runnable(#[trigger] old(list).view_procs()[i], now.ticks),
        r.is_none() ==> final(list).view_procs() == old(list).view_procs(),
        r.is_some() ==> exists|k: int|
            picks(old(list).view_procs(), now.ticks, k) && {
                let s = old(list).view_procs();
                let m = k % s.len() as int;
                &&& r->0 == s[m].pid
                &&& final(list).view_procs() == rotl(s, m).update(0, with_state(s[m], ProcessState::Running))
            },
{
    let ghost s = list.view_procs();
    let n = list.len();
    if n == 0 {
        return None;
    }
    let mut k: usize = 0;
    while k < n
        invariant
            0 <= k <= n,
            n == s.len(),
            n > 0,
            list.view_procs() == rotl(s, k as int),
            list.spec_next_pid() == old(list).spec_next_pid(),
            list.wf(),
            s == old(list).view_procs(),
            forall|j: int| 1 <= j <= k ==> !runnable(#[trigger] s[j % n as int], now.ticks),
        decreases n - k,
    {
        let ghost before = list.view_procs();
        list.rotate_front();
        proof {
            assert(list.view_procs() =~= rotl(s, k + 1));
        }
        k = k + 1;
        let m = if k == n { 0 } else { k };
        proof {
            lemma_mod_small(k as int, n as int);
            assert(m as int == k as int % n as int);
            assert(list.view_procs()[0] == s[m as int]);
        }
        let st = list.front_state();
        if st == ProcessState::Running || (st == ProcessState::Sleeping && list.front_sleep_until()
            <= now.ticks) {
            let pid = list.wake_front();
            proof {
                assert(picks(s, now.ticks, k as int));
                if m == 0 {
                    assert(rotl(s, 0) =~= s);
                    assert(rotl(s, n as int) =~= s);
                }
            }
            return Some(pid);
        }
    }
    proof {
        assert(rotl(s, n as int) =~= s);
        assert forall|i: int| 0 <= i < n implies !runnable(#[trigger] s[i], now.ticks) by {
            if i == 0 {
                lemma_mod_small(n as int, n as int);
                assert(s[n as int % n as int] == s[0]);
            } else {
                lemma_mod_small(i, n as int);
                assert(s[i % n as int] == s[i]);
            }
        }
    }
    None
}

/// Remainders of numbers up to the divisor.
pub proof fn lemma_mod_small(k: int, n: int)
    requires
        0 <= k <= n,
        n > 0,
    ensures
        k < n ==> k % n == k,
        k == n ==> k % n == 0,
{
    if k < n {
        assert(k % n == k) by (nonlinear_arith)
            requires
                0 <= k < n,
        ;
    } else {
        assert(n % n == 0) by (nonlinear_arith)
            requires
                n > 0,
        ;
    }
}

/// With a process that is running, `schedule` always finds one to resume,
/// however many others sleep or wait.
pub proof fn lemma_schedule_live(s: Seq<Process>, now: u64, idle: int)
    requires
        0 <= idle < s.len(),
        s[idle].state == ProcessState::Running,
    ensures
        !(forall|i: int| 0 <= i < s.len() ==> !runnable(#[trigger] s[i], now)),
{
    assert(runnable(s[idle], now));
}

} // verus!
