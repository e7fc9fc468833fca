use broker::mpsc::{channel, RecvError, SendError, TryRecvError, TrySendError};
use broker::rwlock::{RWLock, Wake};

#[test]
fn channel_is_first_in_first_out() {
    let mut c = channel::<u32>(3);
    assert!(c.try_send(1).is_ok());
    assert!(c.try_send(2).is_ok());
    assert_eq!(c.len(), 2);
    assert_eq!(c.try_recv().ok(), Some(1));
    assert!(c.try_send(3).is_ok());
    assert_eq!(c.try_recv().ok(), Some(2));
    assert_eq!(c.try_recv().ok(), Some(3));
    assert_eq!(c.try_recv().err(), Some(TryRecvError::Empty));
}

#[test]
fn full_channel_hands_the_item_back() {
    let mut c = channel::<u32>(1);
    assert!(c.try_send(7).is_ok());
    match c.try_send(8) {
        Err(TrySendError::Full(x)) => assert_eq!(x, 8),
        _ => panic!("expected a full channel"),
    }
    assert_eq!(c.len(), 1);
    assert!(c.remove_sender());
    assert_eq!(c.senders(), 0);
    match c.try_send(9) {
        Err(TrySendError::Disconnected(x)) => assert_eq!(x, 9),
        _ => panic!("expected a disconnected channel"),
    }
    assert_eq!(c.try_recv().ok(), Some(7));
    assert_eq!(c.try_recv().err(), Some(TryRecvError::Disconnected));
}

#[test]
fn channel_counts_senders() {
    let mut c = channel::<u8>(2);
    assert_eq!(c.senders(), 1);
    assert_eq!(c.capacity(), 2);
    c.add_sender();
    assert_eq!(c.senders(), 2);
    assert!(!c.remove_sender());
    assert!(c.remove_sender());
    assert_eq!(c.senders(), 0);
    // A send with room left still goes through once every sender is gone.
    assert!(c.try_send(4).is_ok());
    assert_eq!(c.try_recv().ok(), Some(4));
}

#[test]
fn channel_error_messages() {
    assert_eq!(SendError(3u8).message(), "sending on a disconnected channel");
    assert_eq!(TryRecvError::Empty.message(), "receiving on an empty channel");
    assert_eq!(TryRecvError::Disconnected.message(), "receiving on a disconnected channel");
    assert_eq!(RecvError::Disconnected.message(), "receiving on a disconnected channel");
}

#[test]
fn readers_share_the_lock() {
    let mut l = RWLock::new(5u32);
    let g1 = l.read_lock().expect("first reader");
    let g2 = l.read_lock().expect("second reader");
    assert_eq!(*l.read(&g1), 5);
    assert_eq!(l.readers(), 2);
    assert!(l.write_lock().is_none());
    assert_eq!(l.waiting_writers(), 1);
    // A writer waits: new readers are held back.
    assert!(l.read_lock().is_none());
    assert_eq!(l.release_read(g1), Wake::Nobody);
    assert_eq!(l.release_read(g2), Wake::OneWriter);
    let w = l.retry_write_lock().expect("writer after the readers left");
    assert_eq!(l.waiting_writers(), 0);
    *l.write(&w) = 9;
    assert_eq!(l.release_write(w), Wake::AllReaders);
    let g3 = l.read_lock().expect("reader after the writer left");
    assert_eq!(*l.read(&g3), 9);
}

#[test]
fn writer_excludes_everyone() {
    let mut l = RWLock::new(0i64);
    let w = l.write_lock().expect("free lock");
    assert!(l.read_lock().is_none());
    assert!(l.write_lock().is_none());
    assert_eq!(l.waiting_writers(), 1);
    assert_eq!(l.release_write(w), Wake::OneWriter);
    let w2 = l.retry_write_lock().expect("waiting writer");
    assert_eq!(l.write_unlock(), Wake::AllReaders);
    drop(w2);
    assert!(l.read_lock().is_some());
}

#[test]
fn writer_flag_follows_write_access() {
    let mut l = RWLock::new(1u8);
    assert!(!l.writer_active());
    let w = l.write_lock().expect("free lock");
    assert!(l.writer_active());
    assert_eq!(l.release_write(w), Wake::AllReaders);
    assert!(!l.writer_active());
}
