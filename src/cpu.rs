//! Trap frame, CPU modes and machine time.
use vstd::prelude::*;

verus! {

/// Ticks of the machine timer in one millisecond.
pub const MTIMER_TICKS_PER_MS: u64 = 10_000;

/// Ticks of the machine timer in one second.
pub const MTIMER_TICKS_PER_SEC: u64 = 10_000_000;

/// Ticks of the machine timer in one minute.
pub const MTIMER_TICKS_PER_MIN: u64 = 600_000_000;

/// Ticks of the machine timer in one hour.
pub const MTIMER_TICKS_PER_HOUR: u64 = 36_000_000_000;

/// The value that `satp` is built from: the translation mode and the
/// physical page number of the root table.
pub open spec fn satp_spec(mode: u64, asid: u64, addr: u64) -> u64 {
    (mode << 60u64) | ((asid & 0xffff) << 44u64) | ((addr >> 12u64) & 0xff_ffff_ffff)
}

/// Builds a `satp` value from a mode, an address-space id and the address of
/// the root page table.
pub fn build_satp(mode: SatpMode, asid: u64, addr: u64) -> (r: u64)
    ensures
        r == satp_spec(mode.spec_val(), asid, addr),
{
    (mode.val() << 60u64) | ((asid & 0xffff) << 44u64) | ((addr >> 12u64) & 0xff_ffff_ffff)
}

/// Address-translation modes of `satp`.
#[derive(Clone, Copy, Debug, PartialEq, Eq, Structural)]
pub enum SatpMode {
    Off,
    Sv39,
    Sv48,
}

impl SatpMode {
    pub open spec fn spec_val(&self) -> u64 {
        match self {
            SatpMode::Off => 0,
            SatpMode::Sv39 => 8,
            SatpMode::Sv48 => 9,
        }
    }

    pub fn val(&self) -> (r: u64)
        ensures
            r == self.spec_val(),
    {
        match self {
            SatpMode::Off => 0,
            SatpMode::Sv39 => 8,
            SatpMode::Sv48 => 9,
        }
    }
}

/// Privilege modes of a process.
#[derive(Clone, Copy, Debug, PartialEq, Eq, Structural)]
pub enum CpuMode {
    User,
    Supervisor,
    Machine,
}

impl CpuMode {
    pub open spec fn spec_val(&self) -> u64 {
        match self {
            CpuMode::User => 0,
            CpuMode::Supervisor => 1,
            CpuMode::Machine => 3,
        }
    }

    /// The mode's number.
    pub fn val(&self) -> (r: u64)
        ensures
            r == self.spec_val(),
    {
        match self {
            CpuMode::User => 0,
            CpuMode::Supervisor => 1,
            CpuMode::Machine => 3,
        }
    }
}

/// Index of the return-address register.
pub const REG_RA: usize = 1;

/// Index of the stack-pointer register.
pub const REG_SP: usize = 2;

/// Index of argument register A0, which also carries a system call's result.
pub const REG_A0: usize = 10;

/// Index of argument register A1.
pub const REG_A1: usize = 11;

/// Index of argument register A2.
pub const REG_A2: usize = 12;

/// Index of argument register A3.
pub const REG_A3: usize = 13;

/// Index of argument register A4.
pub const REG_A4: usize = 14;

/// Index of argument register A5.
pub const REG_A5: usize = 15;

/// Index of register A7, which carries the system call number.
pub const REG_A7: usize = 17;

/// The general registers, by their ABI names.
#[derive(Clone, Copy, Debug, PartialEq, Eq, Structural)]
pub enum Registers {
    Zero,
    Ra,
    Sp,
    Gp,
    Tp,
    T0,
    T1,
    T2,
    S0,
    S1,
    A0,
    A1,
    A2,
    A3,
    A4,
    A5,
    A6,
    A7,
    S2,
    S3,
    S4,
    S5,
    S6,
    S7,
    S8,
    S9,
    S10,
    S11,
    T3,
    T4,
    T5,
    T6,
}

impl Registers {
    /// The register's index in a trap frame.
    pub fn index(&self) -> (r: usize)
        ensures
            r < 32,
            *self == Registers::Ra ==> r == REG_RA,
            *self == Registers::Sp ==> r == REG_SP,
            *self == Registers::A0 ==> r == REG_A0,
            *self == Registers::A7 ==> r == REG_A7,
    {
        match self {
            Registers::Zero => 0,
            Registers::Ra => 1,
            Registers::Sp => 2,
            Registers::Gp => 3,
            Registers::Tp => 4,
            Registers::T0 => 5,
            Registers::T1 => 6,
            Registers::T2 => 7,
            Registers::S0 => 8,
            Registers::S1 => 9,
            Registers::A0 => 10,
            Registers::A1 => 11,
            Registers::A2 => 12,
            Registers::A3 => 13,
            Registers::A4 => 14,
            Registers::A5 => 15,
            Registers::A6 => 16,
            Registers::A7 => 17,
            Registers::S2 => 18,
            Registers::S3 => 19,
            Registers::S4 => 20,
            Registers::S5 => 21,
            Registers::S6 => 22,
            Registers::S7 => 23,
            Registers::S8 => 24,
            Registers::S9 => 25,
            Registers::S10 => 26,
            Registers::S11 => 27,
            Registers::T3 => 28,
            Registers::T4 => 29,
            Registers::T5 => 30,
            Registers::T6 => 31,
        }
    }
}

/// The register-save area of a process, in the order the trap stub lays it
/// out: 32 general registers, 32 float registers, `satp`, the program
/// counter, the hart id, the trap stack, the pid and the mode.
#[derive(Clone, Debug)]
pub struct TrapFrame {
    pub regs: Vec<u64>,
    pub fregs: Vec<u64>,
    pub satp: u64,
    pub pc: u64,
    pub hartid: u64,
    pub qm: u64,
    pub pid: u64,
    pub mode: u64,
}

impl TrapFrame {
    /// Both register files hold 32 registers.
    pub open spec fn wf(&self) -> bool {
        self.regs@.len() == 32 && self.fregs@.len() == 32
    }

    /// A frame with every register clear.
    pub fn zero() -> (r: TrapFrame)
        ensures
            r.wf(),
            forall|i: int| 0 <= i < 32 ==> #[trigger] r.regs@[i] == 0 && r.fregs@[i] == 0,
            r.satp == 0,
            r.pc == 0,
            r.hartid == 0,
            r.qm == 1,
            r.pid == 0,
            r.mode == 0,
    {
        let mut regs: Vec<u64> = Vec::new();
        let mut fregs: Vec<u64> = Vec::new();
        let mut i: usize = 0;
        while i < 32
            invariant
                i <= 32,
                regs@.len() == i,
                fregs@.len() == i,
                forall|j: int| 0 <= j < i ==> #[trigger] regs@[j] == 0 && fregs@[j] == 0,
            decreases 32 - i,
        {
            regs.push(0);
            fregs.push(0);
            i = i + 1;
        }
        TrapFrame { regs, fregs, satp: 0, pc: 0, hartid: 0, qm: 1, pid: 0, mode: 0 }
    }

    /// General register `i`.
    pub fn reg(&self, i: usize) -> (r: u64)
        requires
            self.wf(),
            i < 32,
        ensures
            r == self.regs@[i as int],
    {
        self.regs[i]
    }

    /// Sets general register `i`.
    pub fn set_reg(&mut self, i: usize, v: u64)
        requires
            old(self).wf(),
            i < 32,
        ensures
            final(self).wf(),
            final(self).regs@ == old(self).regs@.update(i as int, v),
            final(self).fregs@ == old(self).fregs@,
            final(self).satp == old(self).satp,
            final(self).pc == old(self).pc,
            final(self).hartid == old(self).hartid,
            final(self).qm == old(self).qm,
            final(self).pid == old(self).pid,
            final(self).mode == old(self).mode,
    {
        self.regs.set(i, v);
    }
}

/// A reading of the machine timer, in ticks of 1/10 000 000 s.
#[derive(Clone, Copy, Debug, PartialEq, Eq, Structural)]
pub struct MachineTime {
    pub ticks: u64,
}

impl MachineTime {
    /// The time of a tick count.
    pub fn from_ticks(ticks: u64) -> (r: MachineTime)
        ensures
            r.ticks == ticks,
    {
        MachineTime { ticks }
    }

    /// The time of a count of milliseconds.
    pub fn from_ms(ms: u64) -> (r: MachineTime)
        requires
            ms * MTIMER_TICKS_PER_MS <= u64::MAX,
        ensures
            r.ticks == ms * MTIMER_TICKS_PER_MS,
    {
        MachineTime { ticks: ms * MTIMER_TICKS_PER_MS }
    }

    /// Time zero.
    pub fn zero() -> (r: MachineTime)
        ensures
            r.ticks == 0,
    {
        MachineTime { ticks: 0 }
    }

    /// The tick count.
    pub fn as_u64(&self) -> (r: u64)
        ensures
            r == self.ticks,
    {
        self.ticks
    }

    /// This time moved on by `offset`.
    pub fn offset(&self, offset: MachineTime) -> (r: MachineTime)
        requires
            self.ticks + offset.ticks <= u64::MAX,
        ensures
            r.ticks == self.ticks + offset.ticks,
    {
        MachineTime { ticks: self.ticks + offset.as_u64() }
    }

    /// This time moved on by a count of ticks.
    pub fn offset_ticks(&self, ticks: u64) -> (r: MachineTime)
        requires
            self.ticks + ticks <= u64::MAX,
        ensures
            r.ticks == self.ticks + ticks,
    {
        MachineTime { ticks: self.ticks + ticks }
    }

    /// This time moved on by a count of milliseconds.
    pub fn offset_ms(&self, ms: u64) -> (r: MachineTime)
        requires
            self.ticks + ms * MTIMER_TICKS_PER_MS <= u64::MAX,
        ensures
            r.ticks == self.ticks + ms * MTIMER_TICKS_PER_MS,
    {
        MachineTime { ticks: self.ticks + ms * MTIMER_TICKS_PER_MS }
    }

    /// Minutes, seconds and milliseconds of this time, as `formatted`
    /// shows them.
    pub fn parts(&self) -> (r: (u64, u64, u64))
        ensures
            r.0 == self.ticks / MTIMER_TICKS_PER_MIN,
            r.1 == (self.ticks % MTIMER_TICKS_PER_MIN) / MTIMER_TICKS_PER_SEC,
            r.2 == ((self.ticks % MTIMER_TICKS_PER_MIN) % MTIMER_TICKS_PER_SEC) / MTIMER_TICKS_PER_MS,
    {
        let min = self.ticks / MTIMER_TICKS_PER_MIN;
        let total_sec = self.ticks % MTIMER_TICKS_PER_MIN;
        let sec = total_sec / MTIMER_TICKS_PER_SEC;
        let ms = (total_sec % MTIMER_TICKS_PER_SEC) / MTIMER_TICKS_PER_MS;
        (min, sec, ms)
    }

    /// The time as `minutes:seconds.milliseconds`.
    pub fn formatted(&self) -> (r: String)
        ensures
            r@ == time_text(self.ticks),
    {
        let (min, sec, ms) = self.parts();
        render_time(min, sec, ms)
    }
}

/// Decimal digits of `n`.
pub open spec fn decimal(n: u64) -> Seq<char>
    decreases n,
{
    if n < 10 {
        seq![digit_char(n)]
    } else {
        decimal(n / 10).push(digit_char(n % 10))
    }
}

/// The digit character of a value below ten.
pub open spec fn digit_char(d: u64) -> char {
    if d == 0 { '0' } else if d == 1 { '1' } else if d == 2 { '2' } else if d == 3 { '3' } else if d
        == 4 { '4' } else if d == 5 { '5' } else if d == 6 { '6' } else if d == 7 { '7' } else if d
        == 8 { '8' } else { '9' }
}

/// The text of a time in ticks: minutes, seconds and milliseconds in
/// decimal, as `m:s.ms`.
pub open spec fn time_text(ticks: u64) -> Seq<char> {
    let total_sec = ticks % MTIMER_TICKS_PER_MIN;
    decimal(ticks / MTIMER_TICKS_PER_MIN) + seq![':'] + decimal(total_sec / MTIMER_TICKS_PER_SEC)
        + seq!['.'] + decimal((total_sec % MTIMER_TICKS_PER_SEC) / MTIMER_TICKS_PER_MS)
}

/// Relies on `format!` with `{}` on `u64`, which writes a number in decimal
/// without sign or padding: `m:s.ms`.
#[verifier::external_body]
fn render_time(min: u64, sec: u64, ms: u64) -> (r: String)
    ensures
        r@ == decimal(min) + seq![':'] + decimal(sec) + seq!['.'] + decimal(ms),
{
    format!("{}:{}.{}", min, sec, ms)
}

} // verus!
