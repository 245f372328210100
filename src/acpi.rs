//! Locating the ACPI tables: the root system description pointer and the
//! checksum that every description table carries.
use vstd::prelude::*;

use crate::address::VirtualAddress;

verus! {

/// Size of a revision-0 root pointer.
pub const RSDP_V1_SIZE: u64 = 20;

/// Size of a revision-2 root pointer.
pub const RSDP_V2_SIZE: u64 = 36;

/// Sum of the first `n` bytes of `b`.
pub open spec fn byte_sum(b: Seq<u8>, n: nat) -> nat
    decreases n,
{
    if n == 0 {
        0
    } else {
        byte_sum(b, (n - 1) as nat) + b[n - 1] as nat
    }
}

/// The root system description pointer: where the root table is (as a
/// kernel address) and how long the pointer structure was.
#[derive(Clone, Copy, PartialEq, Eq, Structural, Debug)]
pub enum RootSystemDescriptorPointer {
    V1 { address: VirtualAddress, size: u64 },
    V2 { address: VirtualAddress, size: u64 },
}

/// Whether the first `n` bytes of `bytes` sum to zero modulo 256.
pub fn checksum_ok(bytes: &Vec<u8>, n: usize) -> (r: bool)
    requires
        n <= bytes@.len(),
    ensures
        r == (byte_sum(bytes@, n as nat) % 256 == 0),
{
    let mut sum: u8 = 0;
    let mut i: usize = 0;
    while i < n
        invariant
            i <= n <= bytes@.len(),
            sum == byte_sum(bytes@, i as nat) % 256,
        decreases n - i,
    {
        proof {
            assert(byte_sum(bytes@, (i + 1) as nat) == byte_sum(bytes@, i as nat) + bytes@[i as int]);
            assert((sum + bytes@[i as int]) % 256 == (byte_sum(bytes@, i as nat) + bytes@[i as int]) % 256)
                by (nonlinear_arith)
                requires
                    sum == byte_sum(bytes@, i as nat) % 256,
            ;
        }
        sum = sum.wrapping_add(bytes[i]);
        i = i + 1;
    }
    sum == 0
}

/// A description table is valid when its `length` bytes (the 32-bit field
/// at offset 4) sum to zero modulo 256.
pub fn validate_sdt_header(table: &Vec<u8>) -> (r: bool)
    ensures
        r ==> table@.len() >= 8,
        r == (table@.len() >= 8 && ({
            let len = table@[4] + 256 * table@[5] + 0x1_0000 * table@[6] + 0x100_0000 * table@[7];
            len <= table@.len() && byte_sum(table@, len as nat) % 256 == 0
        })),
{
    if table.len() < 8 {
        return false;
    }
    let len = table[4] as u64 + 256 * (table[5] as u64) + 0x1_0000 * (table[6] as u64) + 0x100_0000
        * (table[7] as u64);
    if len > table.len() as u64 {
        return false;
    }
    checksum_ok(table, len as usize)
}

/// The bytes start with the signature "RSD PTR ".
pub open spec fn has_rsdp_signature(b: Seq<u8>) -> bool {
    b.len() >= RSDP_V1_SIZE && b.subrange(0, 8) == "RSD PTR "@.map_values(|c: char| c as u8)
}

/// The bytes hold a root pointer that `from_bytes` accepts: the signature,
/// a zero checksum over the form that the revision byte selects, and a
/// root table address that the direct map can reach.
pub open spec fn rsdp_accepted(b: Seq<u8>, hhdm_offset: u64) -> bool {
    &&& has_rsdp_signature(b)
    &&& if b[15] == 0 {
        &&& byte_sum(b, 20) % 256 == 0
        &&& b[16] + 256 * b[17] + 0x1_0000 * b[18] + 0x100_0000 * b[19] + hhdm_offset <= u64::MAX
    } else {
        &&& b.len() >= RSDP_V2_SIZE
        &&& byte_sum(b, 36) % 256 == 0
        &&& crate::elf::le_u64(b, 24) + hhdm_offset <= u64::MAX
    }
}

impl RootSystemDescriptorPointer {
    /// Reads the root pointer from its bytes: signature "RSD PTR ", revision
    /// 0 for the 20-byte form with a 32-bit root table address at offset 16,
    /// or later for the 36-byte form with a 64-bit address at offset 24,
    /// and a zero checksum over the form's bytes. `None` when the signature
    /// or the checksum is wrong or the bytes are too few.
    pub fn from_bytes(bytes: &Vec<u8>, hhdm_offset: u64) -> (r: Option<Self>)
        ensures
            r.is_some() <==> rsdp_accepted(bytes@, hhdm_offset),
            match r {
                Some(RootSystemDescriptorPointer::V1 { address, size }) => {
                    &&& bytes@.len() >= RSDP_V1_SIZE
                    &&& bytes@.subrange(0, 8) == "RSD PTR "@.map_values(|c: char| c as u8)
                    &&& bytes@[15] == 0
                    &&& size == RSDP_V1_SIZE
                    &&& byte_sum(bytes@, 20) % 256 == 0
                    &&& address@ == bytes@[16] + 256 * bytes@[17] + 0x1_0000 * bytes@[18]
                        + 0x100_0000 * bytes@[19] + hhdm_offset
                },
                Some(RootSystemDescriptorPointer::V2 { address, size }) => {
                    &&& bytes@.len() >= RSDP_V2_SIZE
                    &&& bytes@.subrange(0, 8) == "RSD PTR "@.map_values(|c: char| c as u8)
                    &&& bytes@[15] != 0
                    &&& size == RSDP_V2_SIZE
                    &&& byte_sum(bytes@, 36) % 256 == 0
                    &&& address@ == crate::elf::le_u64(bytes@, 24) + hhdm_offset
                },
                None => true,
            },
    {
        if bytes.len() < RSDP_V1_SIZE as usize {
            return None;
        }
        let sig: [u8; 8] = [0x52, 0x53, 0x44, 0x20, 0x50, 0x54, 0x52, 0x20];
        let mut i: usize = 0;
        while i < 8
            invariant
                i <= 8,
                bytes@.len() >= 20,
                sig@ == seq![0x52u8, 0x53u8, 0x44u8, 0x20u8, 0x50u8, 0x54u8, 0x52u8, 0x20u8],
                forall|j: int| 0 <= j < i ==> bytes@[j] == sig@[j],
            decreases 8 - i,
        {
            if bytes[i] != sig[i] {
                proof {
                    reveal_strlit("RSD PTR ");
                    assert(bytes@.subrange(0, 8)[i as int] != "RSD PTR "@.map_values(|c: char| c as u8)[i as int]);
                }
                return None;
            }
            i = i + 1;
        }
        proof {
            reveal_strlit("RSD PTR ");
            assert(bytes@.subrange(0, 8) =~= "RSD PTR "@.map_values(|c: char| c as u8));
        }
        let is_xsdt = bytes[15] != 0;
        if is_xsdt {
            if bytes.len() < RSDP_V2_SIZE as usize || !checksum_ok(bytes, RSDP_V2_SIZE as usize) {
                return None;
            }
            let address = crate::elf::read_u64_at(bytes, 24);
            if address > u64::MAX - hhdm_offset {
                return None;
            }
            Some(RootSystemDescriptorPointer::V2 {
                address: VirtualAddress::new(address + hhdm_offset),
                size: RSDP_V2_SIZE,
            })
        } else {
            if !checksum_ok(bytes, RSDP_V1_SIZE as usize) {
                return None;
            }
            let address = bytes[16] as u64 + 256 * (bytes[17] as u64) + 0x1_0000 * (bytes[18] as u64)
                + 0x100_0000 * (bytes[19] as u64);
            if address > u64::MAX - hhdm_offset {
                return None;
            }
            Some(RootSystemDescriptorPointer::V1 {
                address: VirtualAddress::new(address + hhdm_offset),
                size: RSDP_V1_SIZE,
            })
        }
    }
}

/// Size of the header that starts every system description table.
pub const SDT_HEADER_SIZE: usize = 36;

/// The header of a system description table.
#[derive(Clone, Copy, Debug)]
pub struct SdtHeader {
    pub signature: [u8; 4],
    pub length: u32,
    pub revision: u8,
    pub checksum: u8,
    pub oem_revision: u32,
    pub creator_id: u32,
    pub creator_revision: u32,
}

impl SdtHeader {
    /// The header at the start of `table`, or `None` when it is shorter
    /// than a header.
    pub fn from_bytes(table: &Vec<u8>) -> (r: Option<SdtHeader>)
        ensures
            r.is_some() <==> table@.len() >= SDT_HEADER_SIZE,
            match r {
                Some(h) => {
                    &&& h.signature@ == table@.subrange(0, 4)
                    &&& h.length == crate::elf::le_u32(table@, 4)
                    &&& h.revision == table@[8]
                    &&& h.checksum == table@[9]
                    &&& h.oem_revision == crate::elf::le_u32(table@, 24)
                    &&& h.creator_id == crate::elf::le_u32(table@, 28)
                    &&& h.creator_revision == crate::elf::le_u32(table@, 32)
                },
                None => true,
            },
    {
        if table.len() < SDT_HEADER_SIZE {
            return None;
        }
        let signature = [table[0], table[1], table[2], table[3]];
        assert(signature@ =~= table@.subrange(0, 4));
        Some(SdtHeader {
            signature,
            length: crate::elf::read_u32_at(table, 4),
            revision: table[8],
            checksum: table[9],
            oem_revision: crate::elf::read_u32_at(table, 24),
            creator_id: crate::elf::read_u32_at(table, 28),
            creator_revision: crate::elf::read_u32_at(table, 32),
        })
    }

    pub fn has_signature(&self, signature: [u8; 4]) -> (r: bool)
        ensures
            r == (self.signature@ == signature@),
    {
        let r = self.signature[0] == signature[0] && self.signature[1] == signature[1]
            && self.signature[2] == signature[2] && self.signature[3] == signature[3];
        proof {
            if r {
                assert(self.signature@ =~= signature@);
            }
        }
        r
    }
}

/// The table addresses that a root table lists after its header: 32-bit
/// entries in an RSDT, 64-bit entries in an XSDT, as many as its `length`
/// field leaves room for. `None` when the header is missing or claims more
/// bytes than `table` holds.
pub fn root_entries(table: &Vec<u8>, is_xsdt: bool) -> (r: Option<Vec<u64>>)
    ensures
        match r {
            Some(v) => {
                let len = crate::elf::le_u32(table@, 4);
                let w: int = if is_xsdt { 8 } else { 4 };
                &&& SDT_HEADER_SIZE <= len <= table@.len()
                &&& v@.len() == (len - SDT_HEADER_SIZE) / w
                &&& forall|i: int|
                    0 <= i < v@.len() ==> #[trigger] v@[i] == if is_xsdt {
                        crate::elf::le_u64(table@, SDT_HEADER_SIZE + i * 8)
                    } else {
                        crate::elf::le_u32(table@, SDT_HEADER_SIZE + i * 4)
                    }
            },
            None => true,
        },
{
    let header = match SdtHeader::from_bytes(table) {
        Some(h) => h,
        None => {
            return None;
        },
    };
    let len = header.length as usize;
    if len < SDT_HEADER_SIZE || len > table.len() {
        return None;
    }
    let w: usize = if is_xsdt { 8 } else { 4 };
    let count = (len - SDT_HEADER_SIZE) / w;
    let mut v: Vec<u64> = Vec::new();
    let mut i: usize = 0;
    while i < count
        invariant
            len == crate::elf::le_u32(table@, 4),
            SDT_HEADER_SIZE <= len <= table@.len(),
            w == (if is_xsdt { 8usize } else { 4usize }),
            count == (len - SDT_HEADER_SIZE) / (w as int),
            i <= count,
            v@.len() == i,
            forall|k: int|
                0 <= k < i ==> #[trigger] v@[k] == if is_xsdt {
                    crate::elf::le_u64(table@, SDT_HEADER_SIZE + k * 8)
                } else {
                    crate::elf::le_u32(table@, SDT_HEADER_SIZE + k * 4)
                },
        decreases count - i,
    {
        assert(SDT_HEADER_SIZE + i * w + w <= len) by (nonlinear_arith)
            requires
                i < count,
                count == (len - SDT_HEADER_SIZE) / (w as int),
                w > 0,
                SDT_HEADER_SIZE <= len,
        ;
        let o = SDT_HEADER_SIZE + i * w;
        let e = if is_xsdt {
            crate::elf::read_u64_at(table, o)
        } else {
            crate::elf::read_u32_at(table, o) as u64
        };
        v.push(e);
        i = i + 1;
    }
    Some(v)
}

} // verus!
