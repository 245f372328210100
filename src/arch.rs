//! CPU-facing records: the saved register context, interrupt-descriptor
//! entries, exception names, and the emulator's exit codes.
use vstd::prelude::*;

verus! {

/// Registers saved on entry to an interrupt handler.
#[derive(Clone, Copy, PartialEq, Eq, Structural, Debug)]
pub struct Context {
    pub r15: u64,
    pub r14: u64,
    pub r13: u64,
    pub r12: u64,
    pub r11: u64,
    pub r10: u64,
    pub r9: u64,
    pub r8: u64,
    pub rdi: u64,
    pub rsi: u64,
    pub rdx: u64,
    pub rcx: u64,
    pub rbx: u64,
    pub rax: u64,
    pub vector: u64,
    pub error: u64,
    pub iret_rip: u64,
    pub iret_cs: u64,
    pub iret_flags: u64,
    pub iret_rsp: u64,
    pub iret_ss: u64,
}

/// Selector of the kernel code segment.
pub const KERNEL_CODE_SEGMENT: u16 = 0x08;

/// One entry of the interrupt descriptor table.
#[derive(Clone, Copy, PartialEq, Eq, Structural, Debug)]
pub struct IdtEntry {
    pub isr_low: u16,
    pub kernel_code_segment: u16,
    pub ist: u8,
    pub attributes: u8,
    pub isr_mid: u16,
    pub isr_high: u32,
    pub reserved: u32,
}

impl IdtEntry {
    pub fn null() -> (r: Self)
        ensures
            r.isr_low == 0 && r.isr_mid == 0 && r.isr_high == 0 && r.attributes == 0,
            r.kernel_code_segment == 0 && r.ist == 0 && r.reserved == 0,
    {
        IdtEntry {
            isr_low: 0,
            kernel_code_segment: 0,
            ist: 0,
            attributes: 0,
            isr_mid: 0,
            isr_high: 0,
            reserved: 0,
        }
    }

    /// Points the entry at the handler at address `handler`, split into its
    /// low, middle and high parts, in the kernel code segment.
    pub fn set_entry(&mut self, handler: u64, flags: u8)
        ensures
            final(self).isr_low == handler % 0x1_0000,
            final(self).isr_mid == (handler / 0x1_0000) % 0x1_0000,
            final(self).isr_high == handler / 0x1_0000_0000,
            final(self).kernel_code_segment == KERNEL_CODE_SEGMENT,
            final(self).ist == 0,
            final(self).attributes == flags,
            final(self).reserved == 0,
    {
        self.isr_low = (handler % 0x1_0000) as u16;
        self.isr_mid = ((handler / 0x1_0000) % 0x1_0000) as u16;
        self.isr_high = (handler / 0x1_0000_0000) as u32;
        self.kernel_code_segment = KERNEL_CODE_SEGMENT;
        self.ist = 0;
        self.attributes = flags;
        self.reserved = 0;
    }
}

/// The name of CPU exception `vector`, or `None` for a vector that names no
/// exception.
pub fn get_exception_message(vector: usize) -> (r: Option<&'static str>)
    ensures
        vector == 0 ==> r == Some("Division Error"),
        vector == 1 ==> r == Some("Debug"),
        vector == 2 ==> r == Some("Non-Maskable Interrupt"),
        vector == 3 ==> r == Some("Breakpoint"),
        vector == 4 ==> r == Some("Overflow"),
        vector == 5 ==> r == Some("Bound Range Exceeded"),
        vector == 6 ==> r == Some("Invalid Opcode"),
        vector == 7 ==> r == Some("Device not Available"),
        vector == 8 ==> r == Some("Double Fault"),
        vector == 10 ==> r == Some("Invalid TSS"),
        vector == 11 ==> r == Some("Segment Not Present"),
        vector == 12 ==> r == Some("Stack-Segment Fault"),
        vector == 13 ==> r == Some("General Protection Fault"),
        vector == 14 ==> r == Some("Page Fault"),
        vector == 16 ==> r == Some("x87 Floating-Point Exception"),
        vector == 17 ==> r == Some("Aligment Check"),
        vector == 18 ==> r == Some("Machine Check"),
        vector == 19 ==> r == Some("SIMD Floating-Point Exception"),
        vector == 20 ==> r == Some("Virtualization Exception"),
        vector == 21 ==> r == Some("Control Protection Exception"),
        vector == 30 ==> r == Some("Hypervisor Injection Exception"),
        vector == 31 ==> r == Some("VMM Communication Exception"),
        vector == 32 ==> r == Some("Security Exception"),
        r.is_some() <==> (vector <= 8 || (10 <= vector <= 14) || (16 <= vector <= 21) || (30
            <= vector <= 32)),
{
    match vector {
        0 => Some("Division Error"),
        1 => Some("Debug"),
        2 => Some("Non-Maskable Interrupt"),
        3 => Some("Breakpoint"),
        4 => Some("Overflow"),
        5 => Some("Bound Range Exceeded"),
        6 => Some("Invalid Opcode"),
        7 => Some("Device not Available"),
        8 => Some("Double Fault"),
        10 => Some("Invalid TSS"),
        11 => Some("Segment Not Present"),
        12 => Some("Stack-Segment Fault"),
        13 => Some("General Protection Fault"),
        14 => Some("Page Fault"),
        16 => Some("x87 Floating-Point Exception"),
        17 => Some("Aligment Check"),
        18 => Some("Machine Check"),
        19 => Some("SIMD Floating-Point Exception"),
        20 => Some("Virtualization Exception"),
        21 => Some("Control Protection Exception"),
        30 => Some("Hypervisor Injection Exception"),
        31 => Some("VMM Communication Exception"),
        32 => Some("Security Exception"),
        _ => None,
    }
}

/// How the kernel asks the emulator to exit.
#[derive(Clone, Copy, PartialEq, Eq, Structural, Debug)]
pub enum QemuExitCode {
    Success,
    Failed,
}

/// The I/O port of the emulator's exit device.
pub const QEMU_PORT: u16 = 0xf4;

impl QemuExitCode {
    /// The byte written to the exit port.
    pub fn code(&self) -> (r: u8)
        ensures
            *self == QemuExitCode::Success ==> r == 0x10,
            *self == QemuExitCode::Failed ==> r == 0x11,
    {
        match self {
            QemuExitCode::Success => 0x10,
            QemuExitCode::Failed => 0x11,
        }
    }
}

/// One entry of the global descriptor table: a flat segment whose base and
/// limit are zero, told apart by its access byte and flags.
#[derive(Clone, Copy, PartialEq, Eq, Structural, Debug)]
pub struct GdtEntry {
    pub limit_low: u16,
    pub base_low: u16,
    pub base_middle: u8,
    pub access: u8,
    pub flags: u8,
    pub base_high: u8,
}

/// Entries in the kernel's global descriptor table.
pub const GDT_ENTRIES: usize = 5;

/// Size of one descriptor-table entry of each kind, in bytes.
pub const GDT_ENTRY_SIZE: u16 = 8;
pub const IDT_ENTRY_SIZE: u16 = 16;
pub const IDT_ENTRIES: u16 = 256;

impl GdtEntry {
    pub fn null() -> (r: Self)
        ensures
            r == (GdtEntry { limit_low: 0, base_low: 0, base_middle: 0, access: 0, flags: 0, base_high: 0 }),
    {
        GdtEntry { limit_low: 0, base_low: 0, base_middle: 0, access: 0, flags: 0, base_high: 0 }
    }

    /// Makes this a flat segment with `access` and `flags`.
    pub fn set_entry(&mut self, access: u8, flags: u8)
        ensures
            *final(self) == (GdtEntry {
                limit_low: 0,
                base_low: 0,
                base_middle: 0,
                access,
                flags,
                base_high: 0,
            }),
    {
        self.base_low = 0;
        self.base_middle = 0;
        self.base_high = 0;
        self.limit_low = 0;
        self.access = access;
        self.flags = flags;
    }
}

/// The access byte and flags of the kernel's segments: null, kernel code,
/// kernel data, user code, user data.
pub open spec fn gdt_layout() -> Seq<(u8, u8)> {
    seq![(0u8, 0u8), (0x9Au8, 0xA0u8), (0x92u8, 0xC0u8), (0xFAu8, 0xA0u8), (0xF2u8, 0xC0u8)]
}

/// The kernel's global descriptor table.
pub fn kernel_gdt() -> (r: Vec<GdtEntry>)
    ensures
        r@.len() == GDT_ENTRIES,
        forall|i: int|
            0 <= i < GDT_ENTRIES ==> r@[i] == (GdtEntry {
                limit_low: 0,
                base_low: 0,
                base_middle: 0,
                access: gdt_layout()[i].0,
                flags: gdt_layout()[i].1,
                base_high: 0,
            }),
{
    let layout: [(u8, u8); 5] = [(0, 0), (0x9A, 0xA0), (0x92, 0xC0), (0xFA, 0xA0), (0xF2, 0xC0)];
    assert(layout@ =~= gdt_layout());
    let mut table: Vec<GdtEntry> = Vec::new();
    let mut i: usize = 0;
    while i < GDT_ENTRIES
        invariant
            i <= GDT_ENTRIES,
            layout@ == gdt_layout(),
            table@.len() == i,
            forall|j: int|
                0 <= j < i ==> table@[j] == (GdtEntry {
                    limit_low: 0,
                    base_low: 0,
                    base_middle: 0,
                    access: gdt_layout()[j].0,
                    flags: gdt_layout()[j].1,
                    base_high: 0,
                }),
        decreases GDT_ENTRIES - i,
    {
        let mut entry = GdtEntry::null();
        entry.set_entry(layout[i].0, layout[i].1);
        table.push(entry);
        i = i + 1;
    }
    table
}

/// The limit field of a descriptor-table pointer: the table's size in
/// bytes less one.
pub fn table_limit(entries: u16, entry_size: u16) -> (r: u16)
    requires
        1 <= entries * entry_size <= u16::MAX + 1,
    ensures
        r == entries * entry_size - 1,
{
    let size = entries as u32 * entry_size as u32;
    (size - 1) as u16
}

} // verus!
