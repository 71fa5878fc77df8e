//! An allocator used for single values and buffers: what a vector or a box
//! does with its allocator, done here by hand, with the bytes of the arena
//! kept beside the allocator.

use info3_allocateur::arena::Arena;
use info3_allocateur::block::Block;
use info3_allocateur::layout::{HEADER_SIZE, MEMORY_SIZE};
use info3_allocateur::{AllocError, Allocation, FitFunction, Info3Allocateur};

/// The bytes of an arena, addressed by offset. Grows to the highest offset written.
struct Bytes {
    bytes: Vec<u8>,
}

impl Bytes {
    fn new() -> Self {
        Bytes { bytes: Vec::new() }
    }

    fn write_i32(&mut self, at: usize, value: i32) {
        if self.bytes.len() < at + 4 {
            self.bytes.resize(at + 4, 0);
        }
        self.bytes[at..at + 4].copy_from_slice(&value.to_le_bytes());
    }

    fn read_i32(&self, at: usize) -> i32 {
        let mut raw = [0u8; 4];
        raw.copy_from_slice(&self.bytes[at..at + 4]);
        i32::from_le_bytes(raw)
    }
}

/// A growable list of `i32` whose buffer lives in the arena.
struct List {
    buffer: Option<Allocation>,
    len: usize,
}

impl List {
    fn new_in() -> Self {
        List { buffer: None, len: 0 }
    }

    fn capacity(&self) -> usize {
        match self.buffer {
            Some(buffer) => buffer.len / 4,
            None => 0,
        }
    }

    fn reserve(&mut self, allocator: &mut Info3Allocateur, bytes: &mut Bytes, wanted: usize) {
        if wanted <= self.capacity() {
            return;
        }
        let capacity = wanted.max(2 * self.capacity());
        let grown = allocator.allocate(4 * capacity, 4).expect("the arena has room");
        assert_eq!(grown.len, 4 * capacity);
        if let Some(buffer) = self.buffer {
            for i in 0..self.len {
                let value = bytes.read_i32(buffer.ptr + 4 * i);
                bytes.write_i32(grown.ptr + 4 * i, value);
            }
            allocator.deallocate(buffer.ptr);
        }
        self.buffer = Some(grown);
    }

    fn push(&mut self, allocator: &mut Info3Allocateur, bytes: &mut Bytes, value: i32) {
        self.reserve(allocator, bytes, self.len + 1);
        bytes.write_i32(self.buffer.unwrap().ptr + 4 * self.len, value);
        self.len += 1;
    }

    fn resize(&mut self, allocator: &mut Info3Allocateur, bytes: &mut Bytes, len: usize, value: i32) {
        self.reserve(allocator, bytes, len);
        while self.len < len {
            self.push(allocator, bytes, value);
        }
        self.len = len;
    }

    fn from(&self, bytes: &Bytes, start: usize) -> Vec<i32> {
        (start..self.len).map(|i| bytes.read_i32(self.buffer.unwrap().ptr + 4 * i)).collect()
    }

    fn drop_in(self, allocator: &mut Info3Allocateur) {
        if let Some(buffer) = self.buffer {
            allocator.deallocate(buffer.ptr);
        }
    }
}

fn fresh_chain() -> Vec<Block> {
    vec![Block { offset: 0, total_size: MEMORY_SIZE, is_free: true }]
}

#[test]
fn alloc_vec() {
    let mut allocator = Info3Allocateur::default();
    let mut bytes = Bytes::new();

    let mut list = List::new_in();
    list.resize(&mut allocator, &mut bytes, 99, 42);
    list.push(&mut allocator, &mut bytes, 0);
    assert_eq!(list.from(&bytes, 98), vec![42, 0]);

    list.drop_in(&mut allocator);
    assert_eq!(allocator.arena().blocks(), &fresh_chain());
}

#[test]
fn alloc_box() {
    let mut allocator = Info3Allocateur::default();
    let mut bytes = Bytes::new();

    let boxed_number = allocator.allocate(4, 4).expect("the arena has room");
    bytes.write_i32(boxed_number.ptr, 40);
    let value = bytes.read_i32(boxed_number.ptr);
    bytes.write_i32(boxed_number.ptr, value + 2);
    assert_eq!(bytes.read_i32(boxed_number.ptr), 42);

    allocator.deallocate(boxed_number.ptr);
    assert_eq!(allocator.arena().blocks(), &fresh_chain());
}

#[test]
fn default_allocator_is_one_gibibyte_first_fit() {
    let allocator = Info3Allocateur::default();
    assert_eq!(allocator.size(), 1024 * 1024 * 1024);
    assert_eq!(allocator.arena().size(), 1_073_741_824);
    assert_eq!(allocator.arena().fit(), FitFunction::First);
    assert_eq!(allocator.arena().blocks(), &fresh_chain());
}

#[test]
fn allocation_reports_pointer_and_length() {
    let mut allocator = Info3Allocateur::default();
    let first = allocator.allocate(10, 1).unwrap();
    assert_eq!(first, Allocation { ptr: HEADER_SIZE, len: 10 });
    // The block of the first request takes a header and 16 bytes of payload.
    let second = allocator.allocate(100, 16).unwrap();
    assert_eq!(second, Allocation { ptr: 48 + 32, len: 100 });
    assert_eq!(second.ptr % 16, 0);
}

#[test]
fn two_values_do_not_overlap() {
    let mut allocator = Info3Allocateur::default();
    let mut bytes = Bytes::new();
    let a = allocator.allocate(4, 4).unwrap();
    let b = allocator.allocate(4, 4).unwrap();
    assert_ne!(a.ptr, b.ptr);
    assert!(a.ptr + a.len <= b.ptr || b.ptr + b.len <= a.ptr);
    bytes.write_i32(a.ptr, 7);
    bytes.write_i32(b.ptr, -9);
    assert_eq!(bytes.read_i32(a.ptr), 7);
    assert_eq!(bytes.read_i32(b.ptr), -9);
}

#[test]
fn allocation_fails_with_alloc_error_when_nothing_fits() {
    let mut allocator = Info3Allocateur::default();
    // The payload of the one block is the arena less one header.
    assert_eq!(allocator.allocate(MEMORY_SIZE - HEADER_SIZE + 1, 16), Err(AllocError));
    assert_eq!(allocator.allocate(MEMORY_SIZE + 1, 16), Err(AllocError));
    assert_eq!(allocator.allocate(usize::MAX, 1), Err(AllocError));
    assert_eq!(allocator.arena().blocks(), &fresh_chain());

    let whole = allocator.allocate(MEMORY_SIZE - HEADER_SIZE, 16).unwrap();
    assert_eq!(whole.ptr, HEADER_SIZE);
    assert_eq!(allocator.allocate(0, 1), Err(AllocError));
    allocator.deallocate(whole.ptr);
    assert!(allocator.allocate(0, 1).is_ok());
}

#[test]
fn deallocate_ignores_what_is_not_allocated() {
    let mut allocator = Info3Allocateur::default();
    let a = allocator.allocate(64, 8).unwrap();
    let before: Vec<Block> = allocator.arena().blocks().clone();
    allocator.deallocate(0);
    allocator.deallocate(a.ptr + 16);
    allocator.deallocate(a.ptr - 1);
    allocator.deallocate(MEMORY_SIZE);
    assert_eq!(allocator.arena().blocks(), &before);
    allocator.deallocate(a.ptr);
    allocator.deallocate(a.ptr);
    assert_eq!(allocator.arena().blocks(), &fresh_chain());
}

#[test]
fn set_fit_function_leaves_the_blocks() {
    let mut allocator = Info3Allocateur::default();
    let a = allocator.allocate(64, 8).unwrap();
    let before: Vec<Block> = allocator.arena().blocks().clone();
    allocator.set_fit_function(FitFunction::Best);
    assert_eq!(allocator.arena().fit(), FitFunction::Best);
    assert_eq!(allocator.arena().blocks(), &before);
    assert_eq!(allocator.size(), MEMORY_SIZE);
    allocator.deallocate(a.ptr);
    let arena: &Arena = allocator.arena();
    assert_eq!(arena.fit(), FitFunction::Best);
}
