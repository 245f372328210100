use reason::acpi::{root_entries, validate_sdt_header, RootSystemDescriptorPointer, SdtHeader};
use reason::address::{IntoAddress, PhysicalAddress, VirtualAddress, PAGE_SIZE};
use reason::arch::{get_exception_message, IdtEntry, QemuExitCode};
use reason::elf::{resolve_symbol_name, Elf64, Elf64Symbol, SymbolBinding, SymbolType, SymbolVisibility};
use reason::linked_list::{DoublyLinkedList, SinglyLinkedList};
use reason::serial::Writer;
use reason::utils::{align_down, align_up, div_ceil};

fn put(b: &mut Vec<u8>, at: usize, v: u64, n: usize) {
    for i in 0..n {
        b[at + i] = ((v >> (8 * i)) & 0xff) as u8;
    }
}

fn sample_elf() -> Vec<u8> {
    let mut b = vec![0u8; 64 + 3 * 64 + 2 * 24 + 16];
    b[0] = 0x7f;
    b[1] = b'E';
    b[2] = b'L';
    b[3] = b'F';
    put(&mut b, 40, 64, 8);
    put(&mut b, 58, 64, 2);
    put(&mut b, 60, 3, 2);
    let sym_off = 64 + 3 * 64;
    let str_off = sym_off + 2 * 24;
    let sh1 = 64 + 64;
    put(&mut b, sh1 + 4, 2, 4);
    put(&mut b, sh1 + 24, sym_off as u64, 8);
    put(&mut b, sh1 + 32, 48, 8);
    put(&mut b, sh1 + 40, 2, 4);
    put(&mut b, sh1 + 56, 24, 8);
    let sh2 = 64 + 128;
    put(&mut b, sh2 + 4, 3, 4);
    put(&mut b, sh2 + 24, str_off as u64, 8);
    put(&mut b, sh2 + 32, 9, 8);
    put(&mut b, sym_off, 1, 4);
    b[sym_off + 4] = 0x12;
    put(&mut b, sym_off + 8, 0x1000, 8);
    put(&mut b, sym_off + 16, 0x20, 8);
    put(&mut b, sym_off + 24, 5, 4);
    b[sym_off + 24 + 4] = 0x11;
    put(&mut b, sym_off + 24 + 8, 0x2000, 8);
    put(&mut b, sym_off + 24 + 16, 0x8, 8);
    b[str_off..str_off + 9].copy_from_slice(b"\0foo\0bar\0");
    b
}

#[test]
fn elf_symbol_for_an_address() {
    let elf = Elf64::new(sample_elf()).unwrap();
    assert_eq!(elf.header().e_shnum, 3);
    let table = elf.symbol_table().unwrap();
    assert_eq!(table.sh_link, 2);
    let symbols = elf.symbols().unwrap();
    assert_eq!(symbols.len(), 2);
    assert_eq!(symbols[0].symbol_type(), SymbolType::Func);
    assert_eq!(symbols[0].binding(), SymbolBinding::Global);
    assert_eq!(symbols[1].symbol_type(), SymbolType::Object);
    assert_eq!(resolve_symbol_name(&elf, VirtualAddress::new(0x1010)), Some(b"foo".to_vec()));
    assert_eq!(resolve_symbol_name(&elf, VirtualAddress::new(0x2004)), None);
    assert_eq!(resolve_symbol_name(&elf, VirtualAddress::new(0x1020)), None);
    assert_eq!(elf.get_name(5, 2), Some(b"bar".to_vec()));
}

#[test]
fn elf_rejects_other_files() {
    let mut b = sample_elf();
    b[1] = b'X';
    assert!(Elf64::new(b).is_none());
    let mut b = sample_elf();
    put(&mut b, 58, 40, 2);
    assert!(Elf64::new(b).is_none());
    assert!(Elf64::new(vec![0x7f, b'E', b'L', b'F']).is_none());
}

#[test]
fn symbol_fields_decode() {
    let s = Elf64Symbol { st_name: 0, st_info: 0x2d, st_other: 2, st_shndx: 0, st_value: 10, st_size: 5 };
    assert_eq!(s.symbol_type(), SymbolType::LOPROC);
    assert_eq!(s.binding(), SymbolBinding::Weak);
    assert!(matches!(s.visibility(), SymbolVisibility::Hidden));
    assert!(s.within(VirtualAddress::new(14)));
    assert!(!s.within(VirtualAddress::new(15)));
    assert!(!s.within(VirtualAddress::new(9)));
    let t = Elf64Symbol { st_name: 0, st_info: 0xf8, st_other: 0, st_shndx: 0, st_value: 0, st_size: 0 };
    assert_eq!(t.symbol_type(), SymbolType::Unknown);
    assert_eq!(t.binding(), SymbolBinding::HIPROC);
}

fn rsdp(revision: u8, rsdt: u32, xsdt: u64) -> Vec<u8> {
    let mut b = vec![0u8; 36];
    b[0..8].copy_from_slice(b"RSD PTR ");
    b[15] = revision;
    put(&mut b, 16, rsdt as u64, 4);
    put(&mut b, 24, xsdt, 8);
    let n = if revision == 0 { 20 } else { 36 };
    let sum: u32 = b[..n].iter().map(|x| *x as u32).sum();
    b[8] = ((256 - (sum % 256)) % 256) as u8;
    b
}

#[test]
fn rsdp_versions_and_checksum() {
    let hhdm = 0xffff_8000_0000_0000;
    match RootSystemDescriptorPointer::from_bytes(&rsdp(0, 0x7fe_1000, 0), hhdm) {
        Some(RootSystemDescriptorPointer::V1 { address, size }) => {
            assert_eq!(address.as_addr(), 0x7fe_1000 + hhdm);
            assert_eq!(size, 20);
        }
        _ => panic!("expected a revision-0 pointer"),
    }
    match RootSystemDescriptorPointer::from_bytes(&rsdp(2, 0, 0x1_2345_6000), hhdm) {
        Some(RootSystemDescriptorPointer::V2 { address, size }) => {
            assert_eq!(address.as_addr(), 0x1_2345_6000 + hhdm);
            assert_eq!(size, 36);
        }
        _ => panic!("expected a revision-2 pointer"),
    }
    let mut bad = rsdp(0, 0x1000, 0);
    bad[9] = bad[9].wrapping_add(1);
    assert!(RootSystemDescriptorPointer::from_bytes(&bad, hhdm).is_none());
    let mut sig = rsdp(0, 0x1000, 0);
    sig[0] = b'X';
    assert!(RootSystemDescriptorPointer::from_bytes(&sig, hhdm).is_none());
}

#[test]
fn table_checksum() {
    let mut t = vec![0u8; 12];
    put(&mut t, 4, 12, 4);
    t[0] = 10;
    t[11] = 256u32.wrapping_sub(10 + 12) as u8;
    assert!(validate_sdt_header(&t));
    t[11] = 0;
    assert!(!validate_sdt_header(&t));
    put(&mut t, 4, 40, 4);
    assert!(!validate_sdt_header(&t));
}

#[test]
fn serial_bytes() {
    let w = Writer::new(0x3f8);
    let init = w.initialization_writes();
    assert_eq!(init.len(), 10);
    assert_eq!(init[0], (0x3f9, 0x00));
    assert_eq!(init[1], (0x3fb, 0x80));
    assert_eq!(init[5], (0x3fa, 0xC7));
    assert_eq!(init[9], (0x3fc, 0x0F));
    assert_eq!(w.write_character('\0'), None);
    assert_eq!(w.write_character('A'), Some((0x3f8, 0x41)));
    assert_eq!(w.write_string("hi\0!"), vec![(0x3f8, b'h'), (0x3f8, b'i'), (0x3f8, b'!')]);
}

#[test]
fn exception_names_and_entries() {
    assert_eq!(get_exception_message(14), Some("Page Fault"));
    assert_eq!(get_exception_message(0), Some("Division Error"));
    assert_eq!(get_exception_message(9), None);
    assert_eq!(get_exception_message(33), None);
    let mut e = IdtEntry::null();
    e.set_entry(0x1234_5678_9abc_def0, 0x8E);
    assert_eq!(e.isr_low, 0xdef0);
    assert_eq!(e.isr_mid, 0x9abc);
    assert_eq!(e.isr_high, 0x1234_5678);
    assert_eq!(e.kernel_code_segment, 0x08);
    assert_eq!(e.attributes, 0x8E);
    assert_eq!(QemuExitCode::Success.code(), 0x10);
    assert_eq!(QemuExitCode::Failed.code(), 0x11);
}

#[test]
fn address_helpers() {
    assert_eq!(align_up(0x1001, PAGE_SIZE), 0x2000);
    assert_eq!(align_up(0x2000, PAGE_SIZE), 0x2000);
    assert_eq!(align_down(0x2fff, PAGE_SIZE), 0x2000);
    assert_eq!(div_ceil(4097, PAGE_SIZE), 2);
    assert_eq!(div_ceil(0, PAGE_SIZE), 0);
    let v = VirtualAddress::new(0x1003);
    assert_eq!(v.align_up_offset(8), 5);
    assert_eq!(VirtualAddress::new(0x1000).align_up_offset(8), 0);
    assert!(!v.is_page_aligned());
    assert!(v.is_aligned_to(1));
    assert!(VirtualAddress::new(0).is_null());
    let p = PhysicalAddress::new(0x3000);
    assert!(p.is_page_aligned());
    assert_eq!(p.align_up_offset(0x2000), 0x1000);
    assert_eq!(p.add_offset(8).as_addr(), 0x3008);
    assert_eq!(0x5000u64.as_virtual(), VirtualAddress::new(0x5000));
    assert_eq!(0x5000u32.as_physical(), PhysicalAddress::new(0x5000));
    assert_eq!(v.as_ptr(), 0x1003usize);
}

#[test]
fn lists_keep_order() {
    let mut d: DoublyLinkedList<u32> = DoublyLinkedList::new();
    d.append_to_address(VirtualAddress::new(0x10), 1);
    d.append_to_address(VirtualAddress::new(0x20), 2);
    d.append_to_address(VirtualAddress::new(0x30), 3);
    assert_eq!(d.remove(VirtualAddress::new(0x20)), Some(2));
    assert_eq!(d.remove(VirtualAddress::new(0x40)), None);
    assert_eq!(d.len(), 2);
    assert_eq!(d.head_node(), Some(VirtualAddress::new(0x10)));
    assert_eq!(d.tail_node(), Some(VirtualAddress::new(0x30)));
    assert_eq!(d.tail(), Some(&3));
    let mut it = d.iter();
    assert_eq!(it.next(), Some(VirtualAddress::new(0x10)));
    assert_eq!(it.next(), Some(VirtualAddress::new(0x30)));
    assert_eq!(it.next(), None);
    assert_eq!(d.list_node_size(), 16);
    assert_eq!(d.list_ptr_size(), 8);
    let mut s: SinglyLinkedList<u8> = SinglyLinkedList::new();
    assert_eq!(s.head_node(), None);
    s.append_to_address(VirtualAddress::new(0x100), 7);
    s.append_to_address(VirtualAddress::new(0x200), 8);
    assert_eq!(s.remove(VirtualAddress::new(0x100)), Some(7));
    assert_eq!(s.head(), Some(&8));
    assert_eq!(*s.get(0), 8);
    assert_eq!(s.list_node_size(), 8);
}

#[test]
fn descriptor_tables() {
    let gdt = reason::arch::kernel_gdt();
    assert_eq!(gdt.len(), 5);
    assert_eq!((gdt[0].access, gdt[0].flags), (0, 0));
    assert_eq!((gdt[1].access, gdt[1].flags), (0x9A, 0xA0));
    assert_eq!((gdt[4].access, gdt[4].flags), (0xF2, 0xC0));
    assert_eq!(gdt[2].base_low, 0);
    assert_eq!(reason::arch::table_limit(5, 8), 39);
    assert_eq!(reason::arch::table_limit(256, 16), 4095);
}

#[test]
fn root_table_entries() {
    let mut t = vec![0u8; 36 + 12];
    t[0..4].copy_from_slice(b"RSDT");
    put(&mut t, 4, 36 + 12, 4);
    put(&mut t, 36, 0x1000, 4);
    put(&mut t, 40, 0x2000, 4);
    put(&mut t, 44, 0x3000, 4);
    let h = SdtHeader::from_bytes(&t).unwrap();
    assert!(h.has_signature(*b"RSDT"));
    assert!(!h.has_signature(*b"XSDT"));
    assert_eq!(h.length, 48);
    assert_eq!(root_entries(&t, false), Some(vec![0x1000, 0x2000, 0x3000]));
    assert_eq!(root_entries(&t, true), Some(vec![0x2000_0000_1000]));
    put(&mut t, 4, 100, 4);
    assert_eq!(root_entries(&t, false), None);
    assert!(SdtHeader::from_bytes(&vec![0u8; 10]).is_none());
}
