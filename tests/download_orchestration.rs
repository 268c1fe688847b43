use filexfer::{
    split_into_chunks, update_queue, Catalog, CatalogEntry, DownloadPhase, DownloadableFile,
    Downloader, Step,
};

fn names(v: &[&str]) -> Vec<String> {
    v.iter().map(|s| s.to_string()).collect()
}

fn catalog() -> Catalog {
    Catalog {
        entries: vec![
            CatalogEntry { name: "a.txt".to_string(), size: 10 },
            CatalogEntry { name: "b.bin".to_string(), size: 5000 },
        ],
    }
}

#[test]
fn scenario_b_work_queue() {
    let wants = names(&["a.txt", "missing.txt", "b.bin"]);
    let records = vec![
        DownloadableFile { done: true, file: "a.txt".to_string() },
        DownloadableFile { done: false, file: "b.bin".to_string() },
    ];
    assert_eq!(update_queue(&wants, &records), names(&["b.bin"]));
}

#[test]
fn done_files_never_enter_the_queue() {
    let wants = names(&["a.txt", "a.txt", "b.bin", "a.txt"]);
    let records = vec![
        DownloadableFile { done: true, file: "a.txt".to_string() },
        DownloadableFile { done: true, file: "b.bin".to_string() },
    ];
    assert!(update_queue(&wants, &records).is_empty());
}

#[test]
fn queue_keeps_want_list_order_and_repeats() {
    let wants = names(&["b.bin", "a.txt", "b.bin"]);
    let records = vec![
        DownloadableFile { done: false, file: "a.txt".to_string() },
        DownloadableFile { done: false, file: "b.bin".to_string() },
    ];
    assert_eq!(update_queue(&wants, &records), names(&["b.bin", "a.txt", "b.bin"]));
}

#[test]
fn fresh_downloader_has_one_open_record_per_entry() {
    let d = Downloader::new(&catalog());
    assert_eq!(d.records().len(), 2);
    assert!(d.records().iter().all(|r| !r.done));
    assert_eq!(d.records()[1].file, "b.bin");
    assert_eq!(d.phase(), DownloadPhase::Idle);
}

#[test]
fn full_cycle_marks_file_done() {
    let mut d = Downloader::new(&catalog());
    assert_eq!(d.next_step(false), Step::ReloadWants);
    d.on_want_list(&names(&["a.txt"]));
    assert_eq!(d.next_step(false), Step::Request("a.txt".to_string()));
    assert_eq!(d.next_step(false), Step::ReceiveChunk);
    let chunks = split_into_chunks(&[5u8; 10]);
    assert!(d.on_chunk(&chunks[0]));
    assert!(d.records()[0].done);
    assert_eq!(d.phase(), DownloadPhase::Idle);
    assert_eq!(d.next_step(false), Step::ReloadWants);
    d.on_want_list(&names(&["a.txt"]));
    assert_eq!(d.next_step(false), Step::ReloadWants);
    assert_eq!(d.next_step(true), Step::Stop);
    assert_eq!(d.phase(), DownloadPhase::Closed);
}

#[test]
fn done_file_is_never_requested_again() {
    let mut d = Downloader::new(&catalog());
    d.next_step(false);
    d.on_want_list(&names(&["a.txt", "a.txt", "b.bin"]));
    assert_eq!(d.next_step(false), Step::Request("a.txt".to_string()));
    d.on_chunk(&split_into_chunks(&[1u8; 3])[0]);
    // the second "a.txt" was queued before the first completed; it is passed over
    assert_eq!(d.next_step(false), Step::Request("b.bin".to_string()));
}

#[test]
fn scenario_d_cancel_mid_transfer() {
    let data: Vec<u8> = (0..5000).map(|i| i as u8).collect();
    let chunks = split_into_chunks(&data);
    assert_eq!(chunks.len(), 5);
    let mut d = Downloader::new(&catalog());
    d.next_step(false);
    d.on_want_list(&names(&["b.bin"]));
    assert_eq!(d.next_step(false), Step::Request("b.bin".to_string()));
    let mut file = Vec::new();
    for c in &chunks[..2] {
        assert_eq!(d.next_step(false), Step::ReceiveChunk);
        assert!(!d.on_chunk(c));
        file.extend_from_slice(c.payload());
    }
    assert_eq!(d.phase(), DownloadPhase::Receiving { record: 1, received: 2048 });
    assert_eq!(d.next_step(true), Step::Stop);
    assert_eq!(file.len(), 2048);
    assert!(!d.records()[1].done);

    // the next session starts the whole file again from offset 0
    let mut next = Downloader::new(&catalog());
    next.next_step(false);
    next.on_want_list(&names(&["b.bin"]));
    assert_eq!(next.next_step(false), Step::Request("b.bin".to_string()));
    assert_eq!(next.phase(), DownloadPhase::Receiving { record: 1, received: 0 });
    for c in &chunks {
        next.next_step(false);
        next.on_chunk(c);
    }
    assert!(next.records()[1].done);
}

#[test]
fn cancel_before_a_cycle_stops_without_request() {
    let mut d = Downloader::new(&catalog());
    assert_eq!(d.next_step(true), Step::Stop);
    assert_eq!(d.phase(), DownloadPhase::Closed);
}

#[test]
fn cancel_between_queued_files_keeps_queue() {
    let mut d = Downloader::new(&catalog());
    d.next_step(false);
    d.on_want_list(&names(&["a.txt", "b.bin"]));
    assert_eq!(d.next_step(true), Step::Stop);
    assert_eq!(d.queued().len(), 2);
}

#[test]
fn empty_and_unknown_names_are_passed_over() {
    let mut d = Downloader::new(&Catalog {
        entries: vec![
            CatalogEntry { name: String::new(), size: 0 },
            CatalogEntry { name: "b.bin".to_string(), size: 1 },
        ],
    });
    d.next_step(false);
    d.on_want_list(&names(&["", "zzz", "b.bin"]));
    assert_eq!(d.next_step(false), Step::Request("b.bin".to_string()));
    assert!(d.queued().is_empty());
}

#[test]
fn received_count_adds_chunk_lengths() {
    let mut d = Downloader::new(&catalog());
    d.next_step(false);
    d.on_want_list(&names(&["b.bin"]));
    d.next_step(false);
    let chunks = split_into_chunks(&vec![0u8; 3000]);
    d.on_chunk(&chunks[0]);
    d.on_chunk(&chunks[1]);
    assert_eq!(d.phase(), DownloadPhase::Receiving { record: 1, received: 2048 });
    assert!(d.on_chunk(&chunks[2]));
    assert!(d.records()[1].done);
}

#[test]
fn abandoned_transfer_leaves_record_open_and_moves_on() {
    let mut d = Downloader::new(&catalog());
    d.next_step(false);
    d.on_want_list(&names(&["a.txt", "b.bin"]));
    assert_eq!(d.next_step(false), Step::Request("a.txt".to_string()));
    d.abandon();
    assert_eq!(d.phase(), DownloadPhase::Idle);
    assert!(!d.records()[0].done);
    assert_eq!(d.next_step(false), Step::Request("b.bin".to_string()));
}
