use bittorrent_core::torrent::download::DownloadConfig;
use bittorrent_core::torrent::download::DownloadError;
use bittorrent_core::torrent::download::DownloadManager;
use bittorrent_core::torrent::info::TorrentInfo;
use bittorrent_core::torrent::metainfo::TorrentMetainfo;
use sha1::Digest;
use sha1::Sha1;

/// A torrent whose file is `content`, cut into pieces of `piece_length`.
fn torrent_for(content: &[u8], piece_length: u32) -> TorrentMetainfo {
    let mut pieces = Vec::new();
    for chunk in content.chunks(piece_length as usize) {
        let h: [u8; 20] = Sha1::digest(chunk).into();
        pieces.extend_from_slice(&h);
    }
    TorrentMetainfo {
        announce: Some("http://t/ann".to_string()),
        info: TorrentInfo {
            name: "f".to_string(),
            length: content.len() as u64,
            piece_length,
            pieces,
        },
    }
}

#[test]
fn test_new_builds_queue_and_empty_buffer() {
    let content = vec![5u8; 100];
    let t = torrent_for(&content, 32);
    let dm = DownloadManager::new(t, vec!["a:1".to_string()], None).unwrap();
    assert_eq!(dm.pieces_queue.len(), 4);
    assert_eq!(dm.completed_pieces.len(), 4);
    assert!(dm.completed_pieces.iter().all(|s| s.is_none()));
    assert_eq!(dm.pieces_queue[0].index, 0);
    assert_eq!(dm.pieces_queue[0].length, 32);
    assert_eq!(dm.pieces_queue[3].length, 4);
    assert_eq!(dm.config.piece_retries, 3);
    assert_eq!(dm.config.peer_retries, 3);
    assert_eq!(dm.config.max_pending, 5);
    assert_eq!(dm.config.peer_timeout_secs, 10);
}

#[test]
fn test_take_work_batch_prefers_fewest_retries() {
    let content = vec![1u8; 96];
    let t = torrent_for(&content, 16);
    let cfg = DownloadConfig { peer_retries: 3, peer_timeout_secs: 10, max_pending: 2, piece_retries: 5 };
    let mut dm = DownloadManager::new(t, vec![], Some(cfg)).unwrap();
    // fail piece 0 once so it carries one retry
    let batch = dm.take_work_batch();
    assert_eq!(batch.len(), 2);
    let w0 = batch[0];
    assert!(!dm.complete_piece(w0, vec![0u8; 16]));
    // the requeued piece now has one attempt; fresh pieces go first
    let batch = dm.take_work_batch();
    assert_eq!(batch.len(), 2);
    assert!(batch.iter().all(|w| w.retries == 0));
    let batch = dm.take_work_batch();
    assert_eq!(batch.len(), 2);
    assert!(batch[0].retries <= batch[1].retries);
}

#[test]
fn test_hash_mismatch_requeues_until_exhausted() {
    // one-piece torrent; a peer that always returns corrupt bytes
    let content = vec![9u8; 16];
    let t = torrent_for(&content, 16);
    let mut dm = DownloadManager::new(t, vec!["a:1".to_string()], None).unwrap();
    let mut rounds = 0;
    loop {
        let batch = dm.take_work_batch();
        if batch.is_empty() {
            break;
        }
        for work in batch {
            let ok = dm.complete_piece(work, vec![0u8; 16]);
            assert!(!ok);
        }
        rounds += 1;
        assert!(rounds <= 3);
    }
    // three attempts were allowed, then the piece was given up
    assert_eq!(rounds, 3);
    assert_eq!(dm.assemble().unwrap_err(), DownloadError::DownloadExhausted(0));
}

#[test]
fn test_wrong_length_is_rejected() {
    let content = vec![9u8; 16];
    let t = torrent_for(&content, 16);
    let mut dm = DownloadManager::new(t, vec![], None).unwrap();
    let batch = dm.take_work_batch();
    // right hash can't come from a short buffer; a long one is rejected too
    assert!(!dm.complete_piece(batch[0], vec![9u8; 32]));
}

#[test]
fn test_retry_across_peers_uses_the_good_one() {
    // peer A always fails, peer B always succeeds: the download finishes
    // with every piece from B, A's corrupt copies all being rejected
    let content: Vec<u8> = (0u8..=255).cycle().take(100).collect();
    let t = torrent_for(&content, 32);
    let peers = vec!["peer-a:1".to_string(), "peer-b:2".to_string()];
    let cfg = DownloadConfig {
        peer_retries: 3,
        peer_timeout_secs: 10,
        max_pending: 1,
        piece_retries: 3,
    };
    let mut dm = DownloadManager::new(t, peers, Some(cfg)).unwrap();
    let mut from_b = 0;
    while !dm.is_complete() {
        let batch = dm.take_work_batch();
        assert_eq!(batch.len(), 1);
        let work = batch[0];
        if work.retries == 0 {
            // peer A's turn: its copy is corrupt and gets rejected
            let bad = vec![0xEEu8; work.length as usize];
            assert!(!dm.complete_piece(work, bad));
        } else {
            // peer B's turn: the true bytes are accepted
            let start = work.index * 32;
            let good = content[start..start + work.length as usize].to_vec();
            assert!(dm.complete_piece(work, good));
            from_b += 1;
        }
    }
    assert_eq!(from_b, 4);
    let file = dm.assemble().unwrap();
    assert_eq!(file, content);
}

#[test]
fn test_filled_slots_are_write_once() {
    let content = vec![3u8; 16];
    let t = torrent_for(&content, 16);
    let mut dm = DownloadManager::new(t, vec![], None).unwrap();
    let batch = dm.take_work_batch();
    let work = batch[0];
    assert!(dm.complete_piece(work, content.clone()));
    let before = dm.completed_pieces.clone();
    // a second verified copy is accepted but the slot is left untouched
    assert!(dm.complete_piece(work, content.clone()));
    assert_eq!(dm.completed_pieces, before);
    assert_eq!(dm.assemble().unwrap(), content);
}

#[test]
fn test_requeue_work_costs_no_attempt() {
    let content = vec![4u8; 48];
    let t = torrent_for(&content, 16);
    let cfg = DownloadConfig {
        peer_retries: 3,
        peer_timeout_secs: 10,
        max_pending: 1,
        piece_retries: 3,
    };
    let mut dm = DownloadManager::new(t, vec![], Some(cfg)).unwrap();
    let work = dm.take_work_batch()[0];
    assert_eq!(dm.pieces_queue.len(), 2);
    dm.requeue_work(work);
    assert_eq!(dm.pieces_queue.len(), 3);
    assert_eq!(dm.pieces_queue[2], work);
    assert_eq!(dm.pieces_queue[2].retries, 0);
}

#[test]
fn test_assemble_concatenates_verified_pieces() {
    let content: Vec<u8> = (0u8..200).collect();
    let t = torrent_for(&content, 64);
    let mut dm = DownloadManager::new(t, vec![], None).unwrap();
    // complete out of order
    let mut works: Vec<_> = Vec::new();
    loop {
        let batch = dm.take_work_batch();
        if batch.is_empty() {
            break;
        }
        works.extend(batch);
    }
    works.reverse();
    for work in works {
        let start = work.index * 64;
        let data = content[start..start + work.length as usize].to_vec();
        assert!(dm.complete_piece(work, data));
    }
    assert!(dm.is_complete());
    let file = dm.assemble().unwrap();
    assert_eq!(file, content);
}
