//! Reading the kernel's own ELF image: section headers, the symbol table,
//! and the name of the function that holds an instruction address.
use vstd::prelude::*;

use crate::address::VirtualAddress;

verus! {

/// Size of the ELF file header.
pub const ELF_HEADER_SIZE: usize = 64;

/// Size of one section header.
pub const SECTION_HEADER_SIZE: usize = 64;

/// Size of one symbol-table entry.
pub const SYMBOL_SIZE: usize = 24;

/// Section type of a symbol table.
pub const SHT_SYMTAB: u32 = 2;

/// Little-endian 16-bit value at `o`.
pub open spec fn le_u16(b: Seq<u8>, o: int) -> int {
    b[o] + 256 * b[o + 1]
}

/// Little-endian 32-bit value at `o`.
pub open spec fn le_u32(b: Seq<u8>, o: int) -> int {
    le_u16(b, o) + 0x1_0000 * le_u16(b, o + 2)
}

/// Little-endian 64-bit value at `o`.
pub open spec fn le_u64(b: Seq<u8>, o: int) -> int {
    le_u32(b, o) + 0x1_0000_0000 * le_u32(b, o + 4)
}

fn read_u16(b: &Vec<u8>, o: usize) -> (r: u16)
    requires
        o + 2 <= b@.len(),
    ensures
        r == le_u16(b@, o as int),
{
    let n = b.len();
    assert(o + 1 < n);
    b[o] as u16 + 256 * (b[o + 1] as u16)
}

fn read_u32(b: &Vec<u8>, o: usize) -> (r: u32)
    requires
        o + 4 <= b@.len(),
    ensures
        r == le_u32(b@, o as int),
{
    let n = b.len();
    assert(o + 2 < n);
    let lo = read_u16(b, o) as u32;
    let hi = read_u16(b, o + 2) as u32;
    lo + 0x1_0000 * hi
}

/// The little-endian 32-bit value at offset `o` of `b`.
pub fn read_u32_at(b: &Vec<u8>, o: usize) -> (r: u32)
    requires
        o + 4 <= b@.len(),
    ensures
        r == le_u32(b@, o as int),
{
    read_u32(b, o)
}

/// The little-endian 64-bit value at offset `o` of `b`.
pub fn read_u64_at(b: &Vec<u8>, o: usize) -> (r: u64)
    requires
        o + 8 <= b@.len(),
    ensures
        r == le_u64(b@, o as int),
{
    read_u64(b, o)
}

fn read_u64(b: &Vec<u8>, o: usize) -> (r: u64)
    requires
        o + 8 <= b@.len(),
    ensures
        r == le_u64(b@, o as int),
{
    let n = b.len();
    assert(o + 4 < n);
    let lo = read_u32(b, o) as u64;
    let hi = read_u32(b, o + 4) as u64;
    lo + 0x1_0000_0000 * hi
}

/// Kinds of section.
#[derive(Clone, Copy, PartialEq, Eq, Structural, Debug)]
pub enum SectionHeaderType {
    Null,
    Progbits,
    Symtab,
    Strtab,
    Rela,
    Hash,
    Dynamic,
    Note,
    Nobits,
    Rel,
    Shlib,
    Dynsym,
    InitArray,
    FiniArray,
    PreinitArray,
    Group,
    SymtabShndx,
    Num,
    LOOS,
}

impl SectionHeaderType {
    /// The `sh_type` value of this kind.
    pub fn value(&self) -> (r: u32)
        ensures
            *self == SectionHeaderType::Null ==> r == 0x0,
            *self == SectionHeaderType::Progbits ==> r == 0x1,
            *self == SectionHeaderType::Symtab ==> r == 0x2,
            *self == SectionHeaderType::Strtab ==> r == 0x3,
            *self == SectionHeaderType::Rela ==> r == 0x4,
            *self == SectionHeaderType::Hash ==> r == 0x5,
            *self == SectionHeaderType::Dynamic ==> r == 0x6,
            *self == SectionHeaderType::Note ==> r == 0x7,
            *self == SectionHeaderType::Nobits ==> r == 0x8,
            *self == SectionHeaderType::Rel ==> r == 0x9,
            *self == SectionHeaderType::Shlib ==> r == 0xA,
            *self == SectionHeaderType::Dynsym ==> r == 0xB,
            *self == SectionHeaderType::InitArray ==> r == 0xE,
            *self == SectionHeaderType::FiniArray ==> r == 0xF,
            *self == SectionHeaderType::PreinitArray ==> r == 0x10,
            *self == SectionHeaderType::Group ==> r == 0x11,
            *self == SectionHeaderType::SymtabShndx ==> r == 0x12,
            *self == SectionHeaderType::Num ==> r == 0x13,
            *self == SectionHeaderType::LOOS ==> r == 0x6000_0000,
    {
        match self {
            SectionHeaderType::Null => 0x0,
            SectionHeaderType::Progbits => 0x1,
            SectionHeaderType::Symtab => 0x2,
            SectionHeaderType::Strtab => 0x3,
            SectionHeaderType::Rela => 0x4,
            SectionHeaderType::Hash => 0x5,
            SectionHeaderType::Dynamic => 0x6,
            SectionHeaderType::Note => 0x7,
            SectionHeaderType::Nobits => 0x8,
            SectionHeaderType::Rel => 0x9,
            SectionHeaderType::Shlib => 0xA,
            SectionHeaderType::Dynsym => 0xB,
            SectionHeaderType::InitArray => 0xE,
            SectionHeaderType::FiniArray => 0xF,
            SectionHeaderType::PreinitArray => 0x10,
            SectionHeaderType::Group => 0x11,
            SectionHeaderType::SymtabShndx => 0x12,
            SectionHeaderType::Num => 0x13,
            SectionHeaderType::LOOS => 0x6000_0000,
        }
    }
}

#[derive(Clone, Copy, PartialEq, Eq, Structural, Debug)]
pub enum SymbolType {
    NoType,
    Object,
    Func,
    Section,
    File,
    Common,
    TLS,
    Num,
    LOOS,
    HIOS,
    LOPROC,
    HIPROC,
    Unknown,
}

#[derive(Clone, Copy, PartialEq, Eq, Structural, Debug)]
pub enum SymbolBinding {
    Local,
    Global,
    Weak,
    Num,
    LOOS,
    HIOS,
    LOPROC,
    HIPROC,
    Unknown,
}

#[derive(Clone, Copy, PartialEq, Eq, Structural, Debug)]
pub enum SymbolVisibility {
    Default,
    Internal,
    Hidden,
    Protected,
    Unknown,
}

/// The symbol type that the low four bits `t` of `st_info` encode.
pub open spec fn symbol_type_of(t: int) -> SymbolType {
    if t == 0 {
        SymbolType::NoType
    } else if t == 1 {
        SymbolType::Object
    } else if t == 2 {
        SymbolType::Func
    } else if t == 3 {
        SymbolType::Section
    } else if t == 4 {
        SymbolType::File
    } else if t == 5 {
        SymbolType::Common
    } else if t == 6 {
        SymbolType::TLS
    } else if t == 7 {
        SymbolType::Num
    } else if t == 10 {
        SymbolType::LOOS
    } else if t == 12 {
        SymbolType::HIOS
    } else if t == 13 {
        SymbolType::LOPROC
    } else if t == 14 {
        SymbolType::HIPROC
    } else {
        SymbolType::Unknown
    }
}

/// The binding that the high four bits `b` of `st_info` encode.
pub open spec fn binding_of(b: int) -> SymbolBinding {
    if b == 0 {
        SymbolBinding::Local
    } else if b == 1 {
        SymbolBinding::Global
    } else if b == 2 {
        SymbolBinding::Weak
    } else if b == 3 {
        SymbolBinding::Num
    } else if b == 10 {
        SymbolBinding::LOOS
    } else if b == 12 {
        SymbolBinding::HIOS
    } else if b == 13 {
        SymbolBinding::LOPROC
    } else if b == 15 {
        SymbolBinding::HIPROC
    } else {
        SymbolBinding::Unknown
    }
}

/// One entry of a symbol table.
#[derive(Clone, Copy, PartialEq, Eq, Structural, Debug)]
pub struct Elf64Symbol {
    pub st_name: u32,
    pub st_info: u8,
    pub st_other: u8,
    pub st_shndx: u16,
    pub st_value: u64,
    pub st_size: u64,
}

impl Elf64Symbol {
    /// The symbol's type, from the low four bits of `st_info`.
    pub fn symbol_type(&self) -> (r: SymbolType)
        ensures
            r == symbol_type_of(self.st_info as int % 16),
    {
        match self.st_info % 16 {
            0 => SymbolType::NoType,
            1 => SymbolType::Object,
            2 => SymbolType::Func,
            3 => SymbolType::Section,
            4 => SymbolType::File,
            5 => SymbolType::Common,
            6 => SymbolType::TLS,
            7 => SymbolType::Num,
            10 => SymbolType::LOOS,
            12 => SymbolType::HIOS,
            13 => SymbolType::LOPROC,
            14 => SymbolType::HIPROC,
            _ => SymbolType::Unknown,
        }
    }

    /// The symbol's binding, from the high four bits of `st_info`.
    pub fn binding(&self) -> (r: SymbolBinding)
        ensures
            r == binding_of(self.st_info as int / 16),
    {
        match self.st_info / 16 {
            0 => SymbolBinding::Local,
            1 => SymbolBinding::Global,
            2 => SymbolBinding::Weak,
            3 => SymbolBinding::Num,
            10 => SymbolBinding::LOOS,
            12 => SymbolBinding::HIOS,
            13 => SymbolBinding::LOPROC,
            15 => SymbolBinding::HIPROC,
            _ => SymbolBinding::Unknown,
        }
    }

    /// Whether `address` lies in `[st_value, st_value + st_size)`.
    pub fn within(&self, address: VirtualAddress) -> (r: bool)
        ensures
            r == (self.st_value <= address@ < self.st_value + self.st_size),
    {
        let address = address.as_addr();
        address >= self.st_value && address - self.st_value < self.st_size
    }

    /// The symbol's visibility, from the low two bits of `st_other`.
    pub fn visibility(&self) -> (r: SymbolVisibility)
        ensures
            self.st_other % 4 == 0 ==> r == SymbolVisibility::Default,
            self.st_other % 4 == 1 ==> r == SymbolVisibility::Internal,
            self.st_other % 4 == 2 ==> r == SymbolVisibility::Hidden,
            self.st_other % 4 == 3 ==> r == SymbolVisibility::Protected,
    {
        match self.st_other % 4 {
            0 => SymbolVisibility::Default,
            1 => SymbolVisibility::Internal,
            2 => SymbolVisibility::Hidden,
            _ => SymbolVisibility::Protected,
        }
    }
}


/// One section header.
#[derive(Clone, Copy, PartialEq, Eq, Structural, Debug)]
pub struct Elf64SectionHeader {
    pub sh_name: u32,
    pub sh_type: u32,
    pub sh_flags: u64,
    pub sh_addr: u64,
    pub sh_offset: u64,
    pub sh_size: u64,
    pub sh_link: u32,
    pub sh_info: u32,
    pub sh_addralign: u64,
    pub sh_entsize: u64,
}

/// The section header stored at offset `o`.
pub open spec fn section_at(b: Seq<u8>, o: int) -> Elf64SectionHeader {
    Elf64SectionHeader {
        sh_name: le_u32(b, o) as u32,
        sh_type: le_u32(b, o + 4) as u32,
        sh_flags: le_u64(b, o + 8) as u64,
        sh_addr: le_u64(b, o + 16) as u64,
        sh_offset: le_u64(b, o + 24) as u64,
        sh_size: le_u64(b, o + 32) as u64,
        sh_link: le_u32(b, o + 40) as u32,
        sh_info: le_u32(b, o + 44) as u32,
        sh_addralign: le_u64(b, o + 48) as u64,
        sh_entsize: le_u64(b, o + 56) as u64,
    }
}

/// The symbol stored at offset `o`.
pub open spec fn symbol_at(b: Seq<u8>, o: int) -> Elf64Symbol {
    Elf64Symbol {
        st_name: le_u32(b, o) as u32,
        st_info: b[o + 4],
        st_other: b[o + 5],
        st_shndx: le_u16(b, o + 6) as u16,
        st_value: le_u64(b, o + 8) as u64,
        st_size: le_u64(b, o + 16) as u64,
    }
}

fn parse_section(b: &Vec<u8>, o: usize) -> (r: Elf64SectionHeader)
    requires
        o + SECTION_HEADER_SIZE <= b@.len(),
    ensures
        r == section_at(b@, o as int),
{
    let n = b.len();
    assert(o + 63 < n);
    Elf64SectionHeader {
        sh_name: read_u32(b, o),
        sh_type: read_u32(b, o + 4),
        sh_flags: read_u64(b, o + 8),
        sh_addr: read_u64(b, o + 16),
        sh_offset: read_u64(b, o + 24),
        sh_size: read_u64(b, o + 32),
        sh_link: read_u32(b, o + 40),
        sh_info: read_u32(b, o + 44),
        sh_addralign: read_u64(b, o + 48),
        sh_entsize: read_u64(b, o + 56),
    }
}

fn parse_symbol(b: &Vec<u8>, o: usize) -> (r: Elf64Symbol)
    requires
        o + SYMBOL_SIZE <= b@.len(),
    ensures
        r == symbol_at(b@, o as int),
{
    let n = b.len();
    assert(o + 23 < n);
    Elf64Symbol {
        st_name: read_u32(b, o),
        st_info: b[o + 4],
        st_other: b[o + 5],
        st_shndx: read_u16(b, o + 6),
        st_value: read_u64(b, o + 8),
        st_size: read_u64(b, o + 16),
    }
}

/// The ELF file header fields that locate the section headers.
#[derive(Clone, Copy, PartialEq, Eq, Structural, Debug)]
pub struct Elf64Header {
    pub e_type: u16,
    pub e_machine: u16,
    pub e_version: u32,
    pub e_entry: u64,
    pub e_phoff: u64,
    pub e_shoff: u64,
    pub e_flags: u32,
    pub e_ehsize: u16,
    pub e_phentsize: u16,
    pub e_phnum: u16,
    pub e_shentsize: u16,
    pub e_shnum: u16,
    pub e_shstrndx: u16,
}

/// An ELF image held in memory.
pub struct Elf64 {
    bytes: Vec<u8>,
    header: Elf64Header,
}

/// The image starts with the ELF magic number.
pub open spec fn has_magic(b: Seq<u8>) -> bool {
    b.len() >= ELF_HEADER_SIZE && b[0] == 0x7f && b[1] == 0x45 && b[2] == 0x4c && b[3] == 0x46
}

/// The first position at or after `from` that holds a zero byte.
pub open spec fn is_first_nul(b: Seq<u8>, from: int, end: int) -> bool {
    &&& from <= end < b.len()
    &&& b[end] == 0
    &&& forall|k: int| from <= k < end ==> b[k] != 0
}

impl Elf64 {
    pub closed spec fn image(&self) -> Seq<u8> {
        self.bytes@
    }

    pub closed spec fn hdr(&self) -> Elf64Header {
        self.header
    }

    pub fn header(&self) -> (r: Elf64Header)
        ensures
            r == self.hdr(),
    {
        self.header
    }

    /// The image in `bytes`, or `None` when it lacks the ELF magic number or
    /// its section headers are not 64 bytes each.
    pub fn new(bytes: Vec<u8>) -> (r: Option<Self>)
        ensures
            r.is_some() <==> has_magic(bytes@) && le_u16(bytes@, 58) == SECTION_HEADER_SIZE,
            match r {
                Some(elf) => elf.image() == bytes@ && elf.hdr().e_shoff == le_u64(bytes@, 40)
                    && elf.hdr().e_shnum == le_u16(bytes@, 60),
                None => true,
            },
    {
        if bytes.len() < ELF_HEADER_SIZE || bytes[0] != 0x7f || bytes[1] != 0x45 || bytes[2] != 0x4c
            || bytes[3] != 0x46 {
            return None;
        }
        let header = Elf64Header {
            e_type: read_u16(&bytes, 16),
            e_machine: read_u16(&bytes, 18),
            e_version: read_u32(&bytes, 20),
            e_entry: read_u64(&bytes, 24),
            e_phoff: read_u64(&bytes, 32),
            e_shoff: read_u64(&bytes, 40),
            e_flags: read_u32(&bytes, 48),
            e_ehsize: read_u16(&bytes, 52),
            e_phentsize: read_u16(&bytes, 54),
            e_phnum: read_u16(&bytes, 56),
            e_shentsize: read_u16(&bytes, 58),
            e_shnum: read_u16(&bytes, 60),
            e_shstrndx: read_u16(&bytes, 62),
        };
        if header.e_shentsize as usize != SECTION_HEADER_SIZE {
            return None;
        }
        Some(Elf64 { bytes, header })
    }

    /// All section headers, or `None` when the table runs past the image.
    pub fn section_headers(&self) -> (r: Option<Vec<Elf64SectionHeader>>)
        ensures
            r.is_some() <==> self.hdr().e_shoff + self.hdr().e_shnum * SECTION_HEADER_SIZE
                <= self.image().len(),
            match r {
                Some(v) => v@ == Seq::new(
                    self.hdr().e_shnum as nat,
                    |i: int| self.section(i),
                ),
                None => true,
            },
    {
        let n = self.bytes.len();
        let count = self.header.e_shnum as usize;
        let start = self.header.e_shoff;
        if start > n as u64 || (count * SECTION_HEADER_SIZE) as u64 > n as u64 - start {
            return None;
        }
        let start = start as usize;
        let mut v: Vec<Elf64SectionHeader> = Vec::new();
        let mut i: usize = 0;
        while i < count
            invariant
                n == self.bytes@.len(),
                count == self.hdr().e_shnum,
                start == self.hdr().e_shoff,
                start + count * SECTION_HEADER_SIZE <= n,
                i <= count,
                v@ == Seq::new(i as nat, |k: int| section_at(self.image(), start + k * SECTION_HEADER_SIZE)),
            decreases count - i,
        {
            assert(start + i * SECTION_HEADER_SIZE + SECTION_HEADER_SIZE <= n) by (nonlinear_arith)
                requires
                    i < count,
                    start + count * 64 <= n,
                    SECTION_HEADER_SIZE == 64,
            ;
            v.push(parse_section(&self.bytes, start + i * SECTION_HEADER_SIZE));
            assert(v@ =~= Seq::new((i + 1) as nat, |k: int| section_at(self.image(), start + k * SECTION_HEADER_SIZE)));
            i = i + 1;
        }
        Some(v)
    }

    /// Section header `i` of the table.
    pub open spec fn section(&self, i: int) -> Elf64SectionHeader {
        section_at(self.image(), self.hdr().e_shoff + i * SECTION_HEADER_SIZE)
    }

    /// `t` is the first section header of a symbol table.
    pub open spec fn is_symbol_table(&self, t: Elf64SectionHeader) -> bool {
        exists|i: int|
            #![trigger self.section(i)]
            0 <= i < self.hdr().e_shnum && t == self.section(i) && t.sh_type == SHT_SYMTAB && forall|j: int|
                0 <= j < i ==> (#[trigger] self.section(j)).sh_type != SHT_SYMTAB
    }

    /// `name` is the zero-terminated string at `string_table_index` in the
    /// string table that section `string_table` holds.
    pub open spec fn names(&self, string_table_index: u32, string_table: u32, name: Seq<u8>) -> bool {
        exists|start: int, end: int|
            {
                &&& string_table < self.hdr().e_shnum
                &&& start == self.section(string_table as int).sh_offset + string_table_index
                &&& is_first_nul(self.image(), start, end)
                &&& name == self.image().subrange(start, end)
            }
    }

    /// The first section header of a symbol table.
    pub fn symbol_table(&self) -> (r: Option<Elf64SectionHeader>)
        ensures
            match r {
                Some(h) => self.is_symbol_table(h),
                None => self.hdr().e_shoff + self.hdr().e_shnum * SECTION_HEADER_SIZE > self.image().len()
                    || forall|i: int| 0 <= i < self.hdr().e_shnum ==> (#[trigger] self.section(i)).sh_type != SHT_SYMTAB,
            },
    {
        let headers = match self.section_headers() {
            Some(h) => h,
            None => {
                return None;
            },
        };
        let mut i: usize = 0;
        while i < headers.len()
            invariant
                i <= headers@.len(),
                headers@.len() == self.hdr().e_shnum,
                headers@ == Seq::new(
                    self.hdr().e_shnum as nat,
                    |k: int| self.section(k),
                ),
                forall|j: int| 0 <= j < i ==> headers@[j].sh_type != SHT_SYMTAB,
            decreases headers@.len() - i,
        {
            if headers[i].sh_type == SHT_SYMTAB {
                proof {
                    assert(headers@[i as int] == self.section(i as int));
                    assert forall|j: int| 0 <= j < i implies (#[trigger] self.section(j)).sh_type != SHT_SYMTAB by {
                        assert(headers@[j] == self.section(j));
                    }
                }
                return Some(headers[i]);
            }
            i = i + 1;
        }
        proof {
            assert forall|j: int| 0 <= j < self.hdr().e_shnum implies (#[trigger] self.section(j)).sh_type != SHT_SYMTAB by {
                assert(headers@[j] == self.section(j));
            }
        }
        None
    }

    /// The symbols of the symbol table, or `None` when there is none or it
    /// runs past the image.
    pub fn symbols(&self) -> (r: Option<Vec<Elf64Symbol>>)
        ensures
            match r {
                Some(v) => exists|t: Elf64SectionHeader|
                    {
                        &&& self.is_symbol_table(t)
                        &&& t.sh_entsize >= SYMBOL_SIZE
                        &&& v@ == Seq::new(
                            (t.sh_size / t.sh_entsize) as nat,
                            |i: int| symbol_at(self.image(), t.sh_offset + i * t.sh_entsize),
                        )
                    },
                None => true,
            },
    {
        let table = match self.symbol_table() {
            Some(t) => t,
            None => {
                return None;
            },
        };
        let n = self.bytes.len() as u64;
        if table.sh_entsize < SYMBOL_SIZE as u64 || table.sh_offset > n {
            return None;
        }
        let count = table.sh_size / table.sh_entsize;
        if count > 0 {
            let room = n - table.sh_offset;
            if room < SYMBOL_SIZE as u64 || count - 1 > (room - SYMBOL_SIZE as u64) / table.sh_entsize {
                return None;
            }
            assert((count - 1) * table.sh_entsize <= room - SYMBOL_SIZE) by (nonlinear_arith)
                requires
                    count - 1 <= (room - SYMBOL_SIZE) / (table.sh_entsize as int),
                    table.sh_entsize > 0,
                    room >= SYMBOL_SIZE,
            ;
        }
        let mut v: Vec<Elf64Symbol> = Vec::new();
        let mut i: u64 = 0;
        while i < count
            invariant
                n == self.bytes@.len(),
                table.sh_entsize >= SYMBOL_SIZE,
                table.sh_offset <= n,
                count == table.sh_size / table.sh_entsize,
                count > 0 ==> (count - 1) * table.sh_entsize + SYMBOL_SIZE <= n - table.sh_offset,
                i <= count,
                v@ == Seq::new(i as nat, |k: int| symbol_at(self.image(), table.sh_offset + k * table.sh_entsize)),
            decreases count - i,
        {
            assert(i * table.sh_entsize <= (count - 1) * table.sh_entsize) by (nonlinear_arith)
                requires
                    i < count,
            ;
            let o = table.sh_offset + i * table.sh_entsize;
            let nu = self.bytes.len();
            assert(o <= nu as u64);
            v.push(parse_symbol(&self.bytes, o as usize));
            assert(v@ =~= Seq::new((i + 1) as nat, |k: int| symbol_at(self.image(), table.sh_offset + k * table.sh_entsize)));
            i = i + 1;
        }
        Some(v)
    }

    /// The zero-terminated name at `string_table_index` in the string table
    /// that section `string_table` holds, without its terminator.
    pub fn get_name(&self, string_table_index: u32, string_table: u32) -> (r: Option<Vec<u8>>)
        ensures
            match r {
                Some(name) => self.names(string_table_index, string_table, name@),
                None => true,
            },
    {
        let headers = match self.section_headers() {
            Some(h) => h,
            None => {
                return None;
            },
        };
        if string_table as usize >= headers.len() {
            return None;
        }
        let table = headers[string_table as usize];
        assert(table == self.section(string_table as int));
        let n = self.bytes.len();
        if table.sh_offset > n as u64 || string_table_index as u64 > n as u64 - table.sh_offset {
            return None;
        }
        let start = (table.sh_offset + string_table_index as u64) as usize;
        let mut name: Vec<u8> = Vec::new();
        let mut k: usize = start;
        while k < n
            invariant
                n == self.bytes@.len(),
                start <= k <= n,
                name@ == self.image().subrange(start as int, k as int),
                string_table < self.hdr().e_shnum,
                start == self.section(string_table as int).sh_offset + string_table_index,
                forall|j: int| start <= j < k ==> self.image()[j] != 0,
            decreases n - k,
        {
            if self.bytes[k] == 0 {
                assert(is_first_nul(self.image(), start as int, k as int));
                assert(self.names(string_table_index, string_table, name@));
                return Some(name);
            }
            name.push(self.bytes[k]);
            assert(name@ =~= self.image().subrange(start as int, k + 1));
            k = k + 1;
        }
        None
    }
}

/// The name of the function symbol, of non-zero size, whose range holds
/// `ip`: the first such symbol of the image's symbol table.
pub fn resolve_symbol_name(elf: &Elf64, ip: VirtualAddress) -> (r: Option<Vec<u8>>)
    ensures
        match r {
            Some(name) => exists|s: Elf64Symbol, t: Elf64SectionHeader|
                {
                    &&& elf.is_symbol_table(t)
                    &&& symbol_type_of(s.st_info as int % 16) == SymbolType::Func
                    &&& s.st_size != 0
                    &&& s.st_value <= ip@ < s.st_value + s.st_size
                    &&& elf.names(s.st_name, t.sh_link, name@)
                },
            None => true,
        },
{
    let table = match elf.symbol_table() {
        Some(t) => t,
        None => {
            return None;
        },
    };
    let symbols = match elf.symbols() {
        Some(s) => s,
        None => {
            return None;
        },
    };
    let mut i: usize = 0;
    while i < symbols.len()
        invariant
            i <= symbols@.len(),
            elf.is_symbol_table(table),
        decreases symbols@.len() - i,
    {
        let s = symbols[i];
        if s.symbol_type() == SymbolType::Func && s.st_size != 0 && s.within(ip) {
            return elf.get_name(s.st_name, table.sh_link);
        }
        i = i + 1;
    }
    None
}

} // verus!
