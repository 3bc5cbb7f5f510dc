use code_memory::{CodeMemory, CodeRange, FaultRouting, Protection, HANDLER_RECORD_LEN, MIN_CHUNK};
use code_memory::handler_record;

fn disjoint(a: &CodeRange, b: &CodeRange) -> bool {
    a.mapping != b.mapping || a.start + a.len <= b.start || b.start + b.len <= a.start
}

#[test]
fn ten_functions_share_one_mapping() {
    let mut cm = CodeMemory::with_page_size(4096, FaultRouting::Signals);
    let mut ranges = Vec::new();
    for i in 0..10u8 {
        let body = vec![i; 100];
        ranges.push(cm.allocate_copy_of_byte_slice(&body).unwrap());
    }
    for (i, r) in ranges.iter().enumerate() {
        assert_eq!(*r, CodeRange { mapping: 0, start: 100 * i, len: 100 });
    }
    assert_eq!(cm.mapping_len(0), Some(MIN_CHUNK));
    cm.publish();
    assert_eq!(cm.mapping_count(), 1);
    assert_eq!(cm.published_count(), 1);
    assert_eq!(cm.protection(0), Some(Protection::ReadExecute));
    for (i, r) in ranges.iter().enumerate() {
        assert_eq!(cm.read(*r).unwrap(), vec![i as u8; 100]);
    }
}

#[test]
fn large_function_opens_new_mapping() {
    let mut cm = CodeMemory::with_page_size(4096, FaultRouting::Signals);
    let small = cm.allocate_copy_of_byte_slice(&[7u8; 100]).unwrap();
    let big_body = vec![0xabu8; 0x20000];
    let big = cm.allocate_copy_of_byte_slice(&big_body).unwrap();
    assert_eq!(big, CodeRange { mapping: 1, start: 0, len: 0x20000 });
    assert!(cm.mapping_len(1).unwrap() >= 0x20000);
    // The partly filled first mapping stays in the list.
    assert_eq!(cm.mapping_count(), 1);
    assert_eq!(cm.mapping_len(0), Some(MIN_CHUNK));
    assert_eq!(cm.read(small).unwrap(), vec![7u8; 100]);
    assert_eq!(cm.read(big).unwrap(), big_body);
}

#[test]
fn large_function_after_publish() {
    let mut cm = CodeMemory::with_page_size(4096, FaultRouting::Signals);
    for _ in 0..10 {
        cm.allocate_copy_of_byte_slice(&[1u8; 100]).unwrap();
    }
    cm.publish();
    let big = cm.allocate(0x20000).unwrap();
    assert_eq!(big.mapping, 1);
    assert!(cm.mapping_len(1).unwrap() >= 0x20000);
    assert_eq!(cm.protection(0), Some(Protection::ReadExecute));
    assert_eq!(cm.protection(1), Some(Protection::ReadWrite));
    assert_eq!(cm.published_count(), 1);
}

#[test]
fn mapping_length_rounds_to_pages() {
    let mut cm = CodeMemory::with_page_size(4096, FaultRouting::Signals);
    let r = cm.allocate(0x10001).unwrap();
    assert_eq!(r, CodeRange { mapping: 0, start: 0, len: 0x10001 });
    assert_eq!(cm.mapping_len(0), Some(0x11000));
    assert_eq!(cm.position(), 0x10001);
}

#[test]
fn allocations_are_disjoint_and_exact() {
    let mut cm = CodeMemory::with_page_size(4096, FaultRouting::Signals);
    let sizes = [0usize, 10, 0x8000, 1, 0x7ff0, 0x10000, 3, 0x18000, 0];
    let mut ranges = Vec::new();
    for &s in sizes.iter() {
        let r = cm.allocate(s).unwrap();
        assert_eq!(r.len, s);
        assert!(r.start + r.len <= cm.mapping_len(r.mapping).unwrap());
        ranges.push(r);
    }
    for i in 0..ranges.len() {
        for j in 0..ranges.len() {
            if i != j {
                assert!(disjoint(&ranges[i], &ranges[j]), "{:?} {:?}", ranges[i], ranges[j]);
            }
        }
    }
}

#[test]
fn publish_then_allocate_uses_fresh_mapping() {
    let mut cm = CodeMemory::with_page_size(4096, FaultRouting::Signals);
    let a = cm.allocate(16).unwrap();
    cm.publish();
    let b = cm.allocate(16).unwrap();
    assert_eq!(cm.protection(a.mapping), Some(Protection::ReadExecute));
    assert!(b.mapping >= cm.published_count());
    assert_eq!(cm.protection(b.mapping), Some(Protection::ReadWrite));
    cm.publish();
    cm.publish();
    assert_eq!(cm.published_count(), 2);
    assert_eq!(cm.mapping_count(), 2);
    assert_eq!(cm.protection(1), Some(Protection::ReadExecute));
}

#[test]
fn publish_of_empty_arena_keeps_nothing() {
    let mut cm = CodeMemory::with_page_size(4096, FaultRouting::Signals);
    cm.publish();
    assert_eq!(cm.mapping_count(), 0);
    assert_eq!(cm.published_count(), 0);
    assert_eq!(cm.protection(0), Some(Protection::ReadWrite));
    assert_eq!(cm.protection(1), None);
}

#[test]
fn batch_copy_is_contiguous_in_order() {
    let mut cm = CodeMemory::with_page_size(4096, FaultRouting::Signals);
    cm.allocate(5).unwrap();
    let a: &[u8] = &[1, 2, 3];
    let b: &[u8] = &[];
    let c: &[u8] = &[4, 5, 6, 7];
    let views = cm.allocate_copy_of_byte_slices(&[a, b, c]).unwrap();
    assert_eq!(views.len(), 3);
    assert_eq!(views[0], CodeRange { mapping: 0, start: 5, len: 3 });
    assert_eq!(views[1], CodeRange { mapping: 0, start: 8, len: 0 });
    assert_eq!(views[2], CodeRange { mapping: 0, start: 8, len: 4 });
    let mut joined = Vec::new();
    for v in views.iter() {
        joined.extend(cm.read(*v).unwrap());
    }
    assert_eq!(joined, vec![1, 2, 3, 4, 5, 6, 7]);
    let block = CodeRange { mapping: 0, start: 5, len: 7 };
    assert_eq!(cm.read(block).unwrap(), joined);
}

#[test]
fn batch_copy_of_nothing() {
    let mut cm = CodeMemory::with_page_size(4096, FaultRouting::Signals);
    let views = cm.allocate_copy_of_byte_slices(&[]).unwrap();
    assert!(views.is_empty());
}

#[test]
fn copied_bytes_read_back_before_publish() {
    let mut cm = CodeMemory::with_page_size(4096, FaultRouting::Signals);
    let body: Vec<u8> = (0..=255u8).collect();
    let r = cm.allocate_copy_of_byte_slice(&body).unwrap();
    assert_eq!(cm.read(r).unwrap(), body);
    assert_eq!(cm.protection(r.mapping), Some(Protection::ReadWrite));
}

#[test]
fn read_outside_the_arena_is_refused() {
    let mut cm = CodeMemory::with_page_size(4096, FaultRouting::Signals);
    cm.allocate(10).unwrap();
    assert_eq!(cm.read(CodeRange { mapping: 1, start: 0, len: 1 }), None);
    assert_eq!(cm.read(CodeRange { mapping: 0, start: MIN_CHUNK, len: 1 }), None);
    assert_eq!(cm.read(CodeRange { mapping: 0, start: MIN_CHUNK, len: 0 }), Some(vec![]));
}

#[test]
fn oversized_allocation_fails_and_changes_nothing() {
    let mut cm = CodeMemory::with_page_size(4096, FaultRouting::Signals);
    cm.allocate(10).unwrap();
    assert!(cm.allocate(usize::MAX - 10).is_err());
    assert!(cm.allocate(usize::MAX).is_err());
    assert_eq!(cm.position(), 10);
    assert_eq!(cm.mapping_count(), 0);
    assert_eq!(cm.mapping_len(0), Some(MIN_CHUNK));
}

#[test]
fn table_routing_rejects_mapping_beyond_u32() {
    let mut cm = CodeMemory::with_page_size(4096, FaultRouting::Table { handler: 1 });
    assert!(cm.allocate(0x1_0000_0000).is_err());
    assert_eq!(cm.mapping_len(0), Some(0));
}

#[test]
fn table_routing_reserves_first_page_for_record() {
    let handler = 0x1122_3344_5566_7788u64;
    let mut cm = CodeMemory::with_page_size(4096, FaultRouting::Table { handler });
    let r = cm.allocate_copy_of_byte_slice(&[0xc3]).unwrap();
    assert_eq!(r, CodeRange { mapping: 0, start: 4096, len: 1 });
    assert_eq!(cm.mapping_len(0), Some(MIN_CHUNK));
    let head = cm.read(CodeRange { mapping: 0, start: 0, len: HANDLER_RECORD_LEN }).unwrap();
    assert_eq!(head, handler_record(4096, 0x10000, handler));
    let rest = cm.read(CodeRange { mapping: 0, start: HANDLER_RECORD_LEN, len: 4096 - HANDLER_RECORD_LEN }).unwrap();
    assert!(rest.iter().all(|&b| b == 0));
    assert_eq!(cm.read(r).unwrap(), vec![0xc3]);
}

#[test]
fn handler_record_layout() {
    let rec = handler_record(0x1000, 0x11000, 0x1122_3344_5566_7788);
    assert_eq!(
        rec,
        vec![
            0x00, 0x10, 0x00, 0x00, // begin
            0x00, 0x10, 0x01, 0x00, // end
            0x0c, 0x00, 0x00, 0x00, // unwind descriptor offset
            0x09, 0x00, 0x00, 0x00, // version and flags, prologue, codes, frame
            0x14, 0x00, 0x00, 0x00, // handler offset
            0x48, 0xb8, 0x88, 0x77, 0x66, 0x55, 0x44, 0x33, 0x22, 0x11, // mov rax, imm64
            0x90, 0xff, 0xe0, // nop; jmp rax
            0x00, 0x00, 0x00,
        ]
    );
    assert_eq!(rec.len(), HANDLER_RECORD_LEN);
}

#[test]
fn new_uses_the_system_page_size() {
    let mut cm = CodeMemory::new();
    let ps = cm.page_size();
    assert!(ps > 0);
    let r = cm.allocate(1).unwrap();
    assert_eq!(r, CodeRange { mapping: 0, start: 0, len: 1 });
    let len = cm.mapping_len(0).unwrap();
    assert!(len >= MIN_CHUNK);
    assert_eq!(len % ps, 0);
}

#[test]
fn table_routing_adds_a_page_to_large_mappings() {
    let mut cm = CodeMemory::with_page_size(4096, FaultRouting::Table { handler: 0x40 });
    let r = cm.allocate(0x10000).unwrap();
    assert_eq!(r, CodeRange { mapping: 0, start: 4096, len: 0x10000 });
    assert_eq!(cm.mapping_len(0), Some(0x11000));
    assert_eq!(cm.position(), 0x11000);
    let head = cm.read(CodeRange { mapping: 0, start: 0, len: HANDLER_RECORD_LEN }).unwrap();
    assert_eq!(head, handler_record(4096, 0x11000, 0x40));
    let next = cm.allocate(1).unwrap();
    assert_eq!(next, CodeRange { mapping: 1, start: 4096, len: 1 });
    assert_eq!(cm.mapping_count(), 1);
}

#[test]
fn zero_page_size_leaves_lengths_unrounded() {
    let mut cm = CodeMemory::with_page_size(0, FaultRouting::Signals);
    cm.allocate(0x10001).unwrap();
    assert_eq!(cm.mapping_len(0), Some(0x10001));
}
