use the_rack::frames::{
    adopt, alloc_contiguous, alloc_frame, frame_count, free, free_contiguous, free_frames, has_run,
    image_end, init, is_taken, ram_base, ram_size, reserve_range, reserved_frames, Allocator,
    Frame, ReserveError, FRAME_SIZE,
};
use the_rack::memory::Memory;

const BASE: u64 = 0x4000_0000;
const SIZE: u64 = 0x10_0000;

fn small_machine() -> (Allocator, Memory) {
    let a = init(BASE, SIZE, BASE + 0x7001);
    let memory = Memory::new(BASE, SIZE as usize);
    (a, memory)
}

fn is_zeroed(memory: &Memory, frame: Frame) -> bool {
    memory.read(frame.addr(), FRAME_SIZE as usize).iter().all(|byte| *byte == 0)
}

#[test]
fn the_image_is_reserved_and_the_rest_is_free() {
    let (a, _) = small_machine();
    assert_eq!(ram_base(&a), BASE);
    assert_eq!(ram_size(&a), SIZE);
    assert_eq!(image_end(&a), BASE + 0x8000);
    assert_eq!(frame_count(&a), 256);
    assert_eq!(reserved_frames(&a), 8);
    assert_eq!(free_frames(&a), 248);
    assert!(is_taken(&a, BASE));
    assert!(is_taken(&a, BASE + 0x7fff));
    assert!(!is_taken(&a, BASE + 0x8000));
}

#[test]
fn more_memory_than_can_be_tracked_is_left_alone() {
    let a = init(BASE, 8 * 1024 * 1024 * 1024, BASE);
    assert_eq!(ram_size(&a), 4 * 1024 * 1024 * 1024);
    assert_eq!(frame_count(&a), 1024 * 1024);
    let b = init(BASE, 0x5fff, BASE);
    assert_eq!(ram_size(&b), 0x5000);
}

#[test]
fn frames_come_lowest_first_and_zeroed() {
    let (mut a, mut memory) = small_machine();
    let before = free_frames(&a);
    let one = alloc_frame(&mut a, &mut memory).unwrap();
    let two = alloc_frame(&mut a, &mut memory).unwrap();
    assert_eq!(one.addr(), BASE + 0x8000);
    assert_eq!(two.addr(), BASE + 0x9000);
    assert_eq!(free_frames(&a), before - 2);
    assert!(is_zeroed(&memory, one));

    // Scribble, hand it back, and take it again.
    memory.fill(one.addr(), FRAME_SIZE as usize, 0xab);
    assert!(!is_zeroed(&memory, one));
    free(&mut a, one);
    free(&mut a, two);
    assert_eq!(free_frames(&a), before);
    let reused = alloc_frame(&mut a, &mut memory).unwrap();
    assert_eq!(reused.addr(), one.addr());
    assert!(is_zeroed(&memory, reused));
    free(&mut a, reused);
    assert_eq!(free_frames(&a), before);
}

#[test]
fn a_refused_reservation_takes_nothing() {
    let (mut a, mut memory) = small_machine();
    let low = alloc_frame(&mut a, &mut memory).unwrap();
    let high = alloc_frame(&mut a, &mut memory).unwrap();
    free(&mut a, low);
    let free_before = free_frames(&a);
    let reserved_before = reserved_frames(&a);
    assert_eq!(
        reserve_range(&mut a, low.addr(), FRAME_SIZE * 2),
        Err(ReserveError::AlreadyTaken(high.addr()))
    );
    assert_eq!(free_frames(&a), free_before);
    assert_eq!(reserved_frames(&a), reserved_before);
    assert!(!is_taken(&a, low.addr()));
    free(&mut a, high);
}

#[test]
fn a_range_outside_ram_is_refused() {
    let (mut a, _) = small_machine();
    assert_eq!(
        reserve_range(&mut a, 0x1000, FRAME_SIZE),
        Err(ReserveError::OutsideRam(0x1000))
    );
    assert_eq!(
        reserve_range(&mut a, BASE + SIZE - FRAME_SIZE, 2 * FRAME_SIZE),
        Err(ReserveError::OutsideRam(BASE + SIZE - FRAME_SIZE))
    );
    assert_eq!(
        reserve_range(&mut a, u64::MAX - 5, 100),
        Err(ReserveError::OutsideRam(u64::MAX - 5))
    );
    // Its end fits in 64 bits, and the end of the frame it is in does not.
    assert_eq!(
        reserve_range(&mut a, 0xffff_ffff_ffff_f000, 0xfff),
        Err(ReserveError::OutsideRam(0xffff_ffff_ffff_f000))
    );
    assert_eq!(reserve_range(&mut a, BASE, 0), Ok(0));
}

#[test]
fn a_reservation_covers_every_frame_it_touches() {
    let (mut a, mut memory) = small_machine();
    let before = free_frames(&a);
    assert_eq!(reserve_range(&mut a, BASE + 0x8fff, 2), Ok(2));
    assert_eq!(free_frames(&a), before - 2);
    assert_eq!(reserved_frames(&a), 10);
    assert!(is_taken(&a, BASE + 0x8000));
    assert!(is_taken(&a, BASE + 0x9000));
    assert!(!is_taken(&a, BASE + 0xa000));
    assert_eq!(alloc_frame(&mut a, &mut memory).unwrap().addr(), BASE + 0xa000);
}

#[test]
fn moving_ram_is_refused() {
    let (mut a, _) = small_machine();
    assert_eq!(
        adopt(&mut a, BASE + FRAME_SIZE, SIZE),
        Err(ReserveError::OutsideRam(BASE + FRAME_SIZE))
    );
}

#[test]
fn adopting_a_different_size_keeps_what_is_taken() {
    let (mut a, _) = small_machine();
    assert_eq!(adopt(&mut a, BASE, 2 * SIZE), Ok(256));
    assert_eq!(frame_count(&a), 512);
    assert_eq!(free_frames(&a), 504);
    assert!(!is_taken(&a, BASE + 2 * SIZE - FRAME_SIZE));
    assert_eq!(adopt(&mut a, BASE, SIZE), Ok(-256));
    assert_eq!(free_frames(&a), 248);
    // Less than what is spoken for.
    assert_eq!(
        adopt(&mut a, BASE, 0x4000),
        Err(ReserveError::AlreadyTaken(BASE + 0x4000))
    );
    assert_eq!(frame_count(&a), 256);
}

#[test]
fn a_run_is_the_lowest_that_fits() {
    let (mut a, mut memory) = small_machine();
    let before = free_frames(&a);
    assert_eq!(reserve_range(&mut a, BASE + 0xa000, FRAME_SIZE), Ok(1));
    let run = alloc_contiguous(&mut a, &mut memory, 4).unwrap();
    assert_eq!(run.addr(), BASE + 0xb000);
    let single = alloc_frame(&mut a, &mut memory).unwrap();
    assert_eq!(single.addr(), BASE + 0x8000);
    free_contiguous(&mut a, run, 4);
    free(&mut a, single);
    assert_eq!(free_frames(&a), before - 1);
    assert!(alloc_contiguous(&mut a, &mut memory, 1000).is_none());
}

#[test]
fn the_last_frame_can_be_had_and_then_there_are_none() {
    let mut a = init(BASE, 0x3000, BASE + 0x1000);
    let mut memory = Memory::new(BASE, 0x3000);
    assert_eq!(alloc_frame(&mut a, &mut memory).unwrap().addr(), BASE + 0x1000);
    assert_eq!(alloc_frame(&mut a, &mut memory).unwrap().addr(), BASE + 0x2000);
    assert!(alloc_frame(&mut a, &mut memory).is_none());
    assert_eq!(free_frames(&a), 0);
}

#[test]
fn a_run_is_found_above_enough_free_frames() {
    let base = 0x4000_0000;
    let mut a = init(base, 0x1_0000, base);
    // Frames 2 and 7 are taken: free are 0 1, 3 to 6, and 8 to 15.
    reserve_range(&mut a, base + 0x2000, 0x1000).unwrap();
    reserve_range(&mut a, base + 0x7000, 0x1000).unwrap();
    assert!(has_run(&a, 4, 2));
    assert!(has_run(&a, 4, 10));
    assert!(!has_run(&a, 4, 11));
    assert!(has_run(&a, 8, 6));
    assert!(!has_run(&a, 8, 7));
    assert!(!has_run(&a, 9, 0));
    assert!(has_run(&a, 1, 13));
    assert!(!has_run(&a, 1, 14));
}
