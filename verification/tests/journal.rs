use lib::error::KernelError;
use lib::project5::ffs::disk_layout::{JournalSb, JournalTxBegin, JournalTxEnd};
use lib::project5::ffs::journal::{Disk, Journal, RunningTransaction};
use lib::project5::ffs::types::LogicalBlockAddress;

/// The journal starts at this block; it spans 4098 blocks.
const J: usize = 4;
const JOURNAL_BLOCKS: usize = 4098;
/// The disk has this many blocks after the journal.
const DATA: usize = 64;

fn fresh_disk() -> Disk {
    let mut blocks = vec![[0u8; 4096]; J + JOURNAL_BLOCKS + DATA];
    let mut sb = JournalSb::default();
    sb.magic = *b"KeOSJOUR";
    blocks[J] = sb.into_block();
    Disk { blocks }
}

fn filled(b: u8) -> [u8; 4096] {
    [b; 4096]
}

fn lba(n: u64) -> LogicalBlockAddress {
    LogicalBlockAddress::new(n).unwrap()
}

#[test]
fn journal_superblock_roundtrip() {
    let mut sb = JournalSb::default();
    sb.magic = *b"KeOSJOUR";
    sb.commited = 1;
    sb.tx_id = 0x1122334455667788;
    let b = sb.into_block();
    assert_eq!(&b[0..8], b"KeOSJOUR");
    assert_eq!(&b[8..16], &1u64.to_le_bytes());
    assert_eq!(&b[16..24], &0x1122334455667788u64.to_le_bytes());
    let back = JournalSb::from_block(&b);
    assert_eq!(back.magic, sb.magic);
    assert_eq!(back.commited, 1);
    assert_eq!(back.tx_id, 0x1122334455667788);
}

#[test]
fn tx_begin_roundtrip() {
    let mut tb = JournalTxBegin::new(42);
    tb.lbas[0] = Some(lba(100));
    tb.lbas[1] = Some(lba(7));
    let b = tb.into_block();
    assert_eq!(&b[0..8], &42u64.to_le_bytes());
    assert_eq!(&b[8..16], &100u64.to_le_bytes());
    assert_eq!(&b[16..24], &7u64.to_le_bytes());
    assert_eq!(&b[24..32], &0u64.to_le_bytes());
    let back = JournalTxBegin::from_block(&b);
    assert_eq!(back.tx_id, 42);
    assert_eq!(back.lbas[0], Some(lba(100)));
    assert_eq!(back.lbas[1], Some(lba(7)));
    assert_eq!(back.lbas[2], None);
}

#[test]
fn tx_end_roundtrip() {
    let te = JournalTxEnd::new(9);
    let b = te.into_block();
    assert_eq!(&b[0..8], &9u64.to_le_bytes());
    assert_eq!(JournalTxEnd::from_block(&b).tx_id, 9);
}

#[test]
fn commit_without_journal_writes_in_place() {
    let mut disk = fresh_disk();
    let mut none: Option<Journal> = None;
    let mut tx = RunningTransaction::begin(&mut none);
    assert_eq!(tx.tx_id, 0);
    tx.write_meta(lba(10), filled(1));
    tx.write_meta(lba(11), filled(2));
    tx.write_meta(lba(10), filled(3));
    assert!(tx.commit(&mut none, &mut disk, J).is_ok());
    assert_eq!(disk.blocks[10], filled(3));
    assert_eq!(disk.blocks[11], filled(2));
}

#[test]
fn commit_with_journal_writes_and_checkpoints() {
    let mut disk = fresh_disk();
    let mut journal = Some(Journal::load(&disk, J));
    let dst = (J + JOURNAL_BLOCKS + 3) as u64;
    let mut tx = RunningTransaction::begin(&mut journal);
    assert_eq!(tx.tx_id, 0);
    assert_eq!(journal.as_ref().unwrap().sb.tx_id, 1);
    tx.write_meta(lba(dst), filled(0xab));
    tx.write_meta(lba(1), filled(0xcd));
    assert!(tx.commit(&mut journal, &mut disk, J).is_ok());
    assert_eq!(disk.blocks[dst as usize], filled(0xab));
    assert_eq!(disk.blocks[1], filled(0xcd));
    // The journal holds the transaction, with its commit flag cleared.
    let sb = JournalSb::from_block(&disk.blocks[J]);
    assert_eq!(sb.commited, 0);
    assert_eq!(sb.tx_id, 1);
    let tb = JournalTxBegin::from_block(&disk.blocks[J + 1]);
    assert_eq!(tb.tx_id, 0);
    assert_eq!(tb.lbas[0], Some(lba(dst)));
    assert_eq!(tb.lbas[1], Some(lba(1)));
    assert_eq!(tb.lbas[2], None);
    assert_eq!(disk.blocks[J + 2], filled(0xab));
    assert_eq!(disk.blocks[J + 3], filled(0xcd));
    assert_eq!(JournalTxEnd::from_block(&disk.blocks[J + 4]).tx_id, 0);
    assert_eq!(journal.as_ref().unwrap().sb.commited, 0);
}

#[test]
fn commit_past_the_end_is_an_io_error() {
    let mut disk = fresh_disk();
    let before = disk.blocks.clone();
    let mut journal = Some(Journal::load(&disk, J));
    let mut tx = RunningTransaction::begin(&mut journal);
    tx.write_meta(lba(1), filled(1));
    tx.write_meta(lba((J + JOURNAL_BLOCKS + DATA) as u64), filled(2));
    assert_eq!(tx.commit(&mut journal, &mut disk, J), Err(KernelError::IOError));
    assert!(disk.blocks == before);
}

#[test]
fn commit_of_too_many_blocks_is_no_space() {
    let mut disk = fresh_disk();
    let mut journal = Some(Journal::load(&disk, J));
    let mut tx = RunningTransaction::begin(&mut journal);
    for _ in 0..512 {
        tx.write_meta(lba(1), filled(1));
    }
    assert_eq!(tx.commit(&mut journal, &mut disk, J), Err(KernelError::NoSpace));
    assert_eq!(disk.blocks[1], filled(0));
}

/// A disk on which a transaction of `id` writing `data` to block `dst` was
/// committed to the journal, but not checkpointed, before a crash.
fn crashed_disk(id: u64, end_id: u64, dst: u64, data: u8) -> Disk {
    let mut disk = fresh_disk();
    let mut tb = JournalTxBegin::new(id);
    tb.lbas[0] = Some(lba(dst));
    disk.blocks[J + 1] = tb.into_block();
    disk.blocks[J + 2] = filled(data);
    disk.blocks[J + 3] = JournalTxEnd::new(end_id).into_block();
    let mut sb = JournalSb::from_block(&disk.blocks[J]);
    sb.commited = 1;
    sb.tx_id = id + 1;
    disk.blocks[J] = sb.into_block();
    disk
}

#[test]
fn recovery_replays_a_committed_transaction() {
    let dst = (J + JOURNAL_BLOCKS + 5) as u64;
    let mut disk = crashed_disk(3, 3, dst, 0x5a);
    let mut journal = Journal::load(&disk, J);
    assert!(journal.recovery(&mut disk, J).is_ok());
    assert_eq!(disk.blocks[dst as usize], filled(0x5a));
    assert_eq!(JournalSb::from_block(&disk.blocks[J]).commited, 0);
    assert_eq!(journal.sb.commited, 0);
    // Recovering again changes nothing.
    let after = disk.blocks.clone();
    let mut journal = Journal::load(&disk, J);
    assert!(journal.recovery(&mut disk, J).is_ok());
    assert!(disk.blocks == after);
}

#[test]
fn recovery_discards_a_torn_transaction() {
    let dst = (J + JOURNAL_BLOCKS + 5) as u64;
    let mut disk = crashed_disk(3, 2, dst, 0x5a);
    let mut journal = Journal::load(&disk, J);
    assert!(journal.recovery(&mut disk, J).is_ok());
    assert_eq!(disk.blocks[dst as usize], filled(0));
    assert_eq!(JournalSb::from_block(&disk.blocks[J]).commited, 0);
}

#[test]
fn recovery_of_a_clean_journal_writes_nothing() {
    let mut disk = fresh_disk();
    let before = disk.blocks.clone();
    let mut journal = Journal::load(&disk, J);
    assert!(journal.recovery(&mut disk, J).is_ok());
    assert!(disk.blocks == before);
}

#[test]
fn checkpoint_copies_the_journal_out() {
    let dst = (J + JOURNAL_BLOCKS + 1) as u64;
    let mut disk = crashed_disk(0, 0, dst, 0x77);
    let mut journal = Journal::load(&disk, J);
    assert!(journal.checkpoint(&mut disk, J).is_ok());
    assert_eq!(disk.blocks[dst as usize], filled(0x77));
    assert_eq!(journal.sb.commited, 0);
    assert_eq!(JournalSb::from_block(&disk.blocks[J]).commited, 0);
}

#[test]
fn new_tx_end_is_zero_padded() {
    let te = JournalTxEnd::new(5);
    assert_eq!(te.tx_id, 5);
    assert!(te._pad.iter().all(|b| *b == 0));
}
