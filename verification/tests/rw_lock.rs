use lock_free::rw_lock::{
    read_decide, read_unlock_wakes_writer, write_decide, ReadPhase, RwLock, WritePhase,
    WRITE_LOCKED,
};

#[test]
fn rw_write_then_read() {
    let value_1 = String::from("first");
    let value_2 = String::from("second");
    let mut rw = RwLock::new(value_1.clone());
    let mut guard = rw.write();
    assert_eq!(guard.get(), &value_1);
    guard.set(value_2.clone());
    rw.write_unlock(guard);
    let guard = rw.write();
    assert_eq!(guard.get(), &value_2);
    rw.write_unlock(guard);
    let guard = rw.read();
    assert_eq!(rw.read_value(&guard), &value_2);
}

#[test]
fn rw_many_readers() {
    let mut rw = RwLock::new(3u8);
    let g1 = rw.read();
    let g2 = rw.read();
    let g3 = rw.read();
    assert_eq!(rw.state_word(), 6);
    assert_eq!(*rw.read_value(&g2), 3);
    assert!(!rw.read_unlock(g1));
    assert!(!rw.read_unlock(g2));
    assert!(!rw.read_unlock(g3));
    assert_eq!(rw.state_word(), 0);
}

/// A writer facing a reader marks the word, which turns a new reader away;
/// the last reader's unlock wakes the writer, which then takes the lock.
#[test]
fn rw_waiting_writer_blocks_new_readers() {
    let mut rw = RwLock::new(String::from("old"));
    let reader = rw.read();
    assert_eq!(rw.state_word(), 2);

    let w = rw.write_step(WritePhase::Start).err().unwrap();
    assert_eq!(w, WritePhase::Mark(2));
    let w = rw.write_step(w).err().unwrap();
    assert_eq!(w, WritePhase::ReadCounter);
    assert_eq!(rw.state_word(), 3);
    let w = rw.write_step(w).err().unwrap();
    assert_eq!(w, WritePhase::Recheck(0));
    let w = rw.write_step(w).err().unwrap();
    assert_eq!(w, WritePhase::Sleep(0));

    // A new reader sees the odd word and goes to sleep instead of joining.
    let r = rw.read_step(ReadPhase::Start).err().unwrap();
    assert_eq!(r, ReadPhase::Sleep(3));

    assert!(rw.read_unlock(reader));
    assert_eq!(rw.state_word(), 1);
    assert_eq!(rw.wake_counter_word(), 1);

    let w = rw.write_step(w).err().unwrap();
    assert_eq!(w, WritePhase::Start);
    let w = rw.write_step(w).err().unwrap();
    assert_eq!(w, WritePhase::TryLock(1));
    let mut guard = rw.write_step(w).ok().unwrap();
    assert_eq!(rw.state_word(), WRITE_LOCKED);
    guard.set(String::from("new"));

    // The sleeping reader wakes, finds the word still odd, and sleeps again.
    let r = rw.read_step(r).err().unwrap();
    assert_eq!(r, ReadPhase::Reload);
    let r = rw.read_step(r).err().unwrap();
    assert_eq!(r, ReadPhase::Sleep(WRITE_LOCKED));

    rw.write_unlock(guard);
    assert_eq!(rw.state_word(), 0);
    assert_eq!(rw.wake_counter_word(), 2);
    let r = rw.read_step(r).err().unwrap();
    let r = rw.read_step(r).err().unwrap();
    assert_eq!(r, ReadPhase::TryRead(0));
    let g = rw.read_step(r).ok().unwrap();
    assert_eq!(rw.read_value(&g), "new");
}

#[test]
fn rw_decisions() {
    assert_eq!(write_decide(0), WritePhase::TryLock(0));
    assert_eq!(write_decide(1), WritePhase::TryLock(1));
    assert_eq!(write_decide(4), WritePhase::Mark(4));
    assert_eq!(write_decide(5), WritePhase::ReadCounter);
    assert_eq!(write_decide(WRITE_LOCKED), WritePhase::ReadCounter);
    assert_eq!(read_decide(4), ReadPhase::TryRead(4));
    assert_eq!(read_decide(5), ReadPhase::Sleep(5));
    assert!(read_unlock_wakes_writer(3));
    assert!(!read_unlock_wakes_writer(2));
    assert!(!read_unlock_wakes_writer(5));
}

/// A waiting writer whose mark was cleared by another writer's release
/// marks the word again instead of sleeping, so new readers stay out.
#[test]
fn rw_writer_remarks_after_mark_is_cleared() {
    let mut rw = RwLock::new(0u32);
    let r1 = rw.read();
    let w = rw.write_step(WritePhase::Start).err().unwrap();
    assert_eq!(w, WritePhase::Mark(2));
    let w = rw.write_step(w).err().unwrap();
    assert_eq!(w, WritePhase::ReadCounter);
    assert_eq!(rw.state_word(), 3);

    assert!(rw.read_unlock(r1));
    assert_eq!(rw.state_word(), 1);
    assert_eq!(rw.wake_counter_word(), 1);

    let g = rw.write();
    rw.write_unlock(g);
    assert_eq!(rw.state_word(), 0);
    assert_eq!(rw.wake_counter_word(), 2);

    let r2 = rw.read();
    assert_eq!(rw.state_word(), 2);

    let w = rw.write_step(w).err().unwrap();
    assert_eq!(w, WritePhase::Recheck(2));
    let w = rw.write_step(w).err().unwrap();
    assert_eq!(w, WritePhase::Mark(2));
    let w = rw.write_step(w).err().unwrap();
    assert_eq!(w, WritePhase::ReadCounter);
    assert_eq!(rw.state_word(), 3);

    let r = rw.read_step(ReadPhase::Start).err().unwrap();
    assert_eq!(r, ReadPhase::Sleep(3));

    assert!(rw.read_unlock(r2));
    let w = rw.write_step(w).err().unwrap();
    assert_eq!(w, WritePhase::Recheck(3));
    let w = rw.write_step(w).err().unwrap();
    assert_eq!(w, WritePhase::TryLock(1));
    let g = rw.write_step(w).ok().unwrap();
    assert_eq!(rw.state_word(), WRITE_LOCKED);
    rw.write_unlock(g);
}
