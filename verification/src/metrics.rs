//! System-wide counters and latency statistics. Counters wrap around on overflow.
use vstd::prelude::*;

verus! {

/// Number of syscall numbers tracked
pub const MAX_SYSCALLS: usize = 512;

/// Counter value after adding `n` with wrap-around.
pub open spec fn wrap_add(a: u64, n: u64) -> u64 {
    if a + n > u64::MAX { (a + n - u64::MAX - 1) as u64 } else { (a + n) as u64 }
}

/// Wrap-around sum of a sequence of counters.
pub open spec fn wrap_sum(s: Seq<u64>) -> u64
    decreases s.len(),
{
    if s.len() == 0 { 0 } else { wrap_add(wrap_sum(s.drop_last()), s.last()) }
}

/// System statistics.
pub struct SystemMetrics {
    /// Total context switches
    pub context_switches: u64,
    /// Total signals delivered
    pub signals_delivered: u64,
    /// PTY bytes read
    pub pty_bytes_in: u64,
    /// PTY bytes written
    pub pty_bytes_out: u64,
    /// Per-syscall counters
    pub syscalls: Vec<u64>,
    /// Total interrupts handled
    pub interrupts: u64,
    /// Total page faults
    pub page_faults: u64,
    /// IPC messages sent
    pub ipc_messages_sent: u64,
    /// IPC messages received
    pub ipc_messages_received: u64,
}

impl SystemMetrics {
    /// One counter per syscall number.
    pub open spec fn wf(&self) -> bool {
        self.syscalls@.len() == MAX_SYSCALLS
    }

    /// All counters at zero.
    pub fn new() -> (r: Self)
        ensures
            r.wf(),
            r.context_switches == 0 && r.signals_delivered == 0 && r.pty_bytes_in == 0
                && r.pty_bytes_out == 0 && r.interrupts == 0 && r.page_faults == 0
                && r.ipc_messages_sent == 0 && r.ipc_messages_received == 0,
            forall|i: int| 0 <= i < MAX_SYSCALLS ==> #[trigger] r.syscalls@[i] == 0,
    {
        let mut syscalls: Vec<u64> = Vec::new();
        let mut i: usize = 0;
        while i < MAX_SYSCALLS
            invariant
                i <= MAX_SYSCALLS,
                syscalls@.len() == i,
                forall|j: int| 0 <= j < i ==> #[trigger] syscalls@[j] == 0,
            decreases MAX_SYSCALLS - i,
        {
            syscalls.push(0);
            i = i + 1;
        }
        SystemMetrics {
            context_switches: 0,
            signals_delivered: 0,
            pty_bytes_in: 0,
            pty_bytes_out: 0,
            syscalls,
            interrupts: 0,
            page_faults: 0,
            ipc_messages_sent: 0,
            ipc_messages_received: 0,
        }
    }

    /// Count a context switch.
    pub fn inc_context_switches(&mut self)
        ensures
            final(self).context_switches == wrap_add(old(self).context_switches, 1),
    {
        self.context_switches = self.context_switches.wrapping_add(1);
    }

    /// Count a delivered signal.
    pub fn inc_signals_delivered(&mut self)
        ensures
            final(self).signals_delivered == wrap_add(old(self).signals_delivered, 1),
    {
        self.signals_delivered = self.signals_delivered.wrapping_add(1);
    }

    /// Add to the PTY bytes-in counter.
    pub fn add_pty_bytes_in(&mut self, bytes: u64)
        ensures
            final(self).pty_bytes_in == wrap_add(old(self).pty_bytes_in, bytes),
    {
        self.pty_bytes_in = self.pty_bytes_in.wrapping_add(bytes);
    }

    /// Add to the PTY bytes-out counter.
    pub fn add_pty_bytes_out(&mut self, bytes: u64)
        ensures
            final(self).pty_bytes_out == wrap_add(old(self).pty_bytes_out, bytes),
    {
        self.pty_bytes_out = self.pty_bytes_out.wrapping_add(bytes);
    }

    /// Count a syscall; numbers at or above `MAX_SYSCALLS` are ignored.
    pub fn inc_syscall(&mut self, syscall_num: usize)
        requires
            old(self).wf(),
        ensures
            final(self).wf(),
            syscall_num < MAX_SYSCALLS ==> final(self).syscalls@ == old(self).syscalls@.update(
                syscall_num as int,
                wrap_add(old(self).syscalls@[syscall_num as int], 1),
            ),
            syscall_num >= MAX_SYSCALLS ==> final(self).syscalls@ == old(self).syscalls@,
    {
        if syscall_num < MAX_SYSCALLS {
            let v = self.syscalls[syscall_num];
            self.syscalls.set(syscall_num, v.wrapping_add(1));
        }
    }

    /// Count an interrupt.
    pub fn inc_interrupts(&mut self)
        ensures
            final(self).interrupts == wrap_add(old(self).interrupts, 1),
    {
        self.interrupts = self.interrupts.wrapping_add(1);
    }

    /// Count a page fault.
    pub fn inc_page_faults(&mut self)
        ensures
            final(self).page_faults == wrap_add(old(self).page_faults, 1),
    {
        self.page_faults = self.page_faults.wrapping_add(1);
    }

    /// Count a sent IPC message.
    pub fn inc_ipc_sent(&mut self)
        ensures
            final(self).ipc_messages_sent == wrap_add(old(self).ipc_messages_sent, 1),
    {
        self.ipc_messages_sent = self.ipc_messages_sent.wrapping_add(1);
    }

    /// Count a received IPC message.
    pub fn inc_ipc_received(&mut self)
        ensures
            final(self).ipc_messages_received == wrap_add(old(self).ipc_messages_received, 1),
    {
        self.ipc_messages_received = self.ipc_messages_received.wrapping_add(1);
    }

    /// Context switch count.
    pub fn get_context_switches(&self) -> (r: u64)
        ensures
            r == self.context_switches,
    {
        self.context_switches
    }

    /// Signals delivered count.
    pub fn get_signals_delivered(&self) -> (r: u64)
        ensures
            r == self.signals_delivered,
    {
        self.signals_delivered
    }

    /// PTY bytes-in count.
    pub fn get_pty_bytes_in(&self) -> (r: u64)
        ensures
            r == self.pty_bytes_in,
    {
        self.pty_bytes_in
    }

    /// PTY bytes-out count.
    pub fn get_pty_bytes_out(&self) -> (r: u64)
        ensures
            r == self.pty_bytes_out,
    {
        self.pty_bytes_out
    }

    /// Count of one syscall; 0 for numbers at or above `MAX_SYSCALLS`.
    pub fn get_syscall_count(&self, syscall_num: usize) -> (r: u64)
        requires
            self.wf(),
        ensures
            r == (if syscall_num < MAX_SYSCALLS { self.syscalls@[syscall_num as int] } else { 0 }),
    {
        if syscall_num < MAX_SYSCALLS {
            self.syscalls[syscall_num]
        } else {
            0
        }
    }

    /// Sum of all syscall counters (wrapping).
    pub fn get_total_syscalls(&self) -> (r: u64)
        requires
            self.wf(),
        ensures
            r == wrap_sum(self.syscalls@),
    {
        let mut total: u64 = 0;
        let mut i: usize = 0;
        while i < MAX_SYSCALLS
            invariant
                self.wf(),
                i <= MAX_SYSCALLS,
                total == wrap_sum(self.syscalls@.subrange(0, i as int)),
            decreases MAX_SYSCALLS - i,
        {
            proof {
                let s = self.syscalls@.subrange(0, i + 1);
                assert(s.drop_last() =~= self.syscalls@.subrange(0, i as int));
            }
            total = total.wrapping_add(self.syscalls[i]);
            i = i + 1;
        }
        assert(self.syscalls@.subrange(0, MAX_SYSCALLS as int) =~= self.syscalls@);
        total
    }

    /// Interrupt count.
    pub fn get_interrupts(&self) -> (r: u64)
        ensures
            r == self.interrupts,
    {
        self.interrupts
    }

    /// Page fault count.
    pub fn get_page_faults(&self) -> (r: u64)
        ensures
            r == self.page_faults,
    {
        self.page_faults
    }

    /// IPC messages sent.
    pub fn get_ipc_sent(&self) -> (r: u64)
        ensures
            r == self.ipc_messages_sent,
    {
        self.ipc_messages_sent
    }

    /// IPC messages received.
    pub fn get_ipc_received(&self) -> (r: u64)
        ensures
            r == self.ipc_messages_received,
    {
        self.ipc_messages_received
    }
}

/// Average of `total` over `count` events, divided by `unit`; 0 when nothing was recorded.
pub open spec fn spec_average(total: u64, count: u64, unit: u64) -> u64 {
    if count > 0 { ((total / count) / unit) as u64 } else { 0 }
}

/// Latency totals and event counts for hot paths (nanoseconds).
pub struct TimingStats {
    pub syscall_latency_ns: u64,
    pub syscall_count: u64,
    pub pty_read_latency_ns: u64,
    pub pty_read_count: u64,
    pub pty_write_latency_ns: u64,
    pub pty_write_count: u64,
    pub signal_latency_ns: u64,
    pub signal_count: u64,
    pub context_switch_latency_ns: u64,
    pub context_switch_count: u64,
    pub fork_latency_ns: u64,
    pub fork_count: u64,
    pub execve_latency_ns: u64,
    pub execve_count: u64,
}

impl TimingStats {
    /// All totals and counts at zero.
    pub fn new() -> (r: Self)
        ensures
            r.syscall_latency_ns == 0 && r.syscall_count == 0 && r.pty_read_latency_ns == 0
                && r.pty_read_count == 0 && r.pty_write_latency_ns == 0 && r.pty_write_count == 0
                && r.signal_latency_ns == 0 && r.signal_count == 0
                && r.context_switch_latency_ns == 0 && r.context_switch_count == 0
                && r.fork_latency_ns == 0 && r.fork_count == 0 && r.execve_latency_ns == 0
                && r.execve_count == 0,
    {
        TimingStats {
            syscall_latency_ns: 0,
            syscall_count: 0,
            pty_read_latency_ns: 0,
            pty_read_count: 0,
            pty_write_latency_ns: 0,
            pty_write_count: 0,
            signal_latency_ns: 0,
            signal_count: 0,
            context_switch_latency_ns: 0,
            context_switch_count: 0,
            fork_latency_ns: 0,
            fork_count: 0,
            execve_latency_ns: 0,
            execve_count: 0,
        }
    }

    /// Record one syscall.
    pub fn record_syscall(&mut self, latency_ns: u64)
        ensures
            final(self).syscall_latency_ns == wrap_add(old(self).syscall_latency_ns, latency_ns),
            final(self).syscall_count == wrap_add(old(self).syscall_count, 1),
    {
        self.syscall_latency_ns = self.syscall_latency_ns.wrapping_add(latency_ns);
        self.syscall_count = self.syscall_count.wrapping_add(1);
    }

    /// Record one PTY read.
    pub fn record_pty_read(&mut self, latency_ns: u64)
        ensures
            final(self).pty_read_latency_ns == wrap_add(old(self).pty_read_latency_ns, latency_ns),
            final(self).pty_read_count == wrap_add(old(self).pty_read_count, 1),
    {
        self.pty_read_latency_ns = self.pty_read_latency_ns.wrapping_add(latency_ns);
        self.pty_read_count = self.pty_read_count.wrapping_add(1);
    }

    /// Record one PTY write.
    pub fn record_pty_write(&mut self, latency_ns: u64)
        ensures
            final(self).pty_write_latency_ns == wrap_add(old(self).pty_write_latency_ns, latency_ns),
            final(self).pty_write_count == wrap_add(old(self).pty_write_count, 1),
    {
        self.pty_write_latency_ns = self.pty_write_latency_ns.wrapping_add(latency_ns);
        self.pty_write_count = self.pty_write_count.wrapping_add(1);
    }

    /// Record one signal delivery.
    pub fn record_signal(&mut self, latency_ns: u64)
        ensures
            final(self).signal_latency_ns == wrap_add(old(self).signal_latency_ns, latency_ns),
            final(self).signal_count == wrap_add(old(self).signal_count, 1),
    {
        self.signal_latency_ns = self.signal_latency_ns.wrapping_add(latency_ns);
        self.signal_count = self.signal_count.wrapping_add(1);
    }

    /// Record one context switch.
    pub fn record_context_switch(&mut self, latency_ns: u64)
        ensures
            final(self).context_switch_latency_ns == wrap_add(old(self).context_switch_latency_ns, latency_ns),
            final(self).context_switch_count == wrap_add(old(self).context_switch_count, 1),
    {
        self.context_switch_latency_ns = self.context_switch_latency_ns.wrapping_add(latency_ns);
        self.context_switch_count = self.context_switch_count.wrapping_add(1);
    }

    /// Record one fork.
    pub fn record_fork(&mut self, latency_ns: u64)
        ensures
            final(self).fork_latency_ns == wrap_add(old(self).fork_latency_ns, latency_ns),
            final(self).fork_count == wrap_add(old(self).fork_count, 1),
    {
        self.fork_latency_ns = self.fork_latency_ns.wrapping_add(latency_ns);
        self.fork_count = self.fork_count.wrapping_add(1);
    }

    /// Record one execve.
    pub fn record_execve(&mut self, latency_ns: u64)
        ensures
            final(self).execve_latency_ns == wrap_add(old(self).execve_latency_ns, latency_ns),
            final(self).execve_count == wrap_add(old(self).execve_count, 1),
    {
        self.execve_latency_ns = self.execve_latency_ns.wrapping_add(latency_ns);
        self.execve_count = self.execve_count.wrapping_add(1);
    }

    /// Average syscall latency in microseconds.
    pub fn avg_syscall_latency_us(&self) -> (r: u64)
        ensures
            r == spec_average(self.syscall_latency_ns, self.syscall_count, 1000),
    {
        average(self.syscall_latency_ns, self.syscall_count, 1000)
    }

    /// Average PTY read latency in microseconds.
    pub fn avg_pty_read_latency_us(&self) -> (r: u64)
        ensures
            r == spec_average(self.pty_read_latency_ns, self.pty_read_count, 1000),
    {
        average(self.pty_read_latency_ns, self.pty_read_count, 1000)
    }

    /// Average PTY write latency in microseconds.
    pub fn avg_pty_write_latency_us(&self) -> (r: u64)
        ensures
            r == spec_average(self.pty_write_latency_ns, self.pty_write_count, 1000),
    {
        average(self.pty_write_latency_ns, self.pty_write_count, 1000)
    }

    /// Average signal delivery latency in microseconds.
    pub fn avg_signal_latency_us(&self) -> (r: u64)
        ensures
            r == spec_average(self.signal_latency_ns, self.signal_count, 1000),
    {
        average(self.signal_latency_ns, self.signal_count, 1000)
    }

    /// Average context switch latency in microseconds.
    pub fn avg_context_switch_latency_us(&self) -> (r: u64)
        ensures
            r == spec_average(self.context_switch_latency_ns, self.context_switch_count, 1000),
    {
        average(self.context_switch_latency_ns, self.context_switch_count, 1000)
    }

    /// Average fork latency in milliseconds.
    pub fn avg_fork_latency_ms(&self) -> (r: u64)
        ensures
            r == spec_average(self.fork_latency_ns, self.fork_count, 1_000_000),
    {
        average(self.fork_latency_ns, self.fork_count, 1_000_000)
    }

    /// Average execve latency in milliseconds.
    pub fn avg_execve_latency_ms(&self) -> (r: u64)
        ensures
            r == spec_average(self.execve_latency_ns, self.execve_count, 1_000_000),
    {
        average(self.execve_latency_ns, self.execve_count, 1_000_000)
    }
}

/// Average of `total` over `count`, scaled down by `unit`.
fn average(total: u64, count: u64, unit: u64) -> (r: u64)
    requires
        unit > 0,
    ensures
        r == spec_average(total, count, unit),
{
    if count > 0 {
        (total / count) / unit
    } else {
        0
    }
}

/// Measures elapsed time from time-stamp-counter readings (assumes 2.4 GHz).
pub struct Timer {
    start: u64,
}

impl Timer {
    /// The TSC reading at the start.
    pub closed spec fn spec_start(&self) -> u64 {
        self.start
    }

    /// Start a timer at the given TSC reading.
    pub fn start(tsc: u64) -> (r: Self)
        ensures
            r.spec_start() == tsc,
    {
        Timer { start: tsc }
    }

    /// Nanoseconds between the start and the TSC reading `now`:
    /// cycles (wrapping) times 10 / 24.
    pub fn elapsed_ns(&self, now: u64) -> (r: u64)
        requires
            (if now >= self.spec_start() { now - self.spec_start() } else {
                now + 0x1_0000_0000_0000_0000 - self.spec_start()
            }) * 10 <= u64::MAX,
        ensures
            r == (if now >= self.spec_start() { now - self.spec_start() } else {
                now + 0x1_0000_0000_0000_0000 - self.spec_start()
            }) * 10 / 24,
    {
        let cycles = now.wrapping_sub(self.start);
        cycles * 10 / 24
    }
}

} // verus!
