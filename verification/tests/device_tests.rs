use riscv_benchmarks::blkdev::{check_geometry, plan_requests, test_pattern, BlockRequest, GeometryError};
use riscv_benchmarks::nic::{
    check_loopback, loopback_source, recv_comp_avail, recv_req_avail, send_comp_avail,
    loopback_request_word, send_req_avail, send_request_word, CompletionError, CompletionTracker, LoopbackError,
};

#[test]
fn test_nic_counts_fields() {
    let counts = 0x0403_0201u32;
    assert_eq!(send_req_avail(counts), 1);
    assert_eq!(recv_req_avail(counts), 2);
    assert_eq!(send_comp_avail(counts), 3);
    assert_eq!(recv_comp_avail(counts), 4);
    assert_eq!(recv_comp_avail(0xff00_0000), 0xff);
}

#[test]
fn test_nic_send_request_word() {
    assert_eq!(send_request_word(0x8000_1000, 1424), (1424u64 << 48) | 0x8000_1000);
    assert_eq!(send_request_word(0xffff_0000_0000_0010, 2), (2u64 << 48) | 0x10);
    assert_eq!(send_request_word(0, 0x1_0005), 5u64 << 48);
}

#[test]
fn test_loopback_request_word_keeps_whole_address() {
    assert_eq!(loopback_request_word(0x8000_1000, 1424), (1424u64 << 48) | 0x8000_1000);
    assert_eq!(loopback_request_word(0xffff_0000_0000_0010, 2), 0xffff_0000_0000_0010);
    assert_eq!(loopback_request_word(0x0001_0000_0000_0000, 4), 0x0005_0000_0000_0000);
    assert_eq!(loopback_request_word(7, 0x1_0005), (5u64 << 48) | 7);
}

#[test]
fn test_loopback_pass_and_failures() {
    let src = loopback_source(2, 6);
    assert_eq!(src, vec![vec![0, 1, 2, 3, 4, 5], vec![6, 7, 8, 9, 10, 11]]);
    let dst = vec![vec![1, 2, 3, 4, 0, 0], vec![7, 8, 9, 10, 0, 0]];
    assert_eq!(check_loopback(&[16, 16], &dst, &src, 16, 1, 4), Ok(()));
    assert_eq!(
        check_loopback(&[16, 12], &dst, &src, 16, 1, 4),
        Err(LoopbackError::WrongLength { packet: 1, expected: 16, got: 12 })
    );
    let mut bad = dst.clone();
    bad[1][2] = 99;
    assert_eq!(
        check_loopback(&[16, 16], &bad, &src, 16, 1, 4),
        Err(LoopbackError::Mismatch { packet: 1, word: 2 })
    );
}

#[test]
fn test_blkdev_geometry() {
    assert_eq!(check_geometry(8, 8, 4), Ok(()));
    assert_eq!(check_geometry(2, 1, 4), Err(GeometryError::TooFewSectors { nsectors: 2, needed: 4 }));
    assert_eq!(check_geometry(8, 3, 4), Err(GeometryError::RequestTooShort { max_req_len: 3, needed: 4 }));
}

#[test]
fn test_blkdev_plan() {
    let reqs = plan_requests(10, 4, 2, true);
    assert_eq!(
        reqs,
        vec![
            BlockRequest { word_offset: 0, sector: 10, nsectors: 2, write: true },
            BlockRequest { word_offset: 256, sector: 12, nsectors: 2, write: true },
        ]
    );
    let reqs = plan_requests(0, 5, 4, false);
    assert_eq!(reqs.len(), 4);
    assert_eq!(reqs[3], BlockRequest { word_offset: 384, sector: 3, nsectors: 1, write: false });
}

#[test]
fn test_blkdev_pattern() {
    let data = test_pattern(512);
    assert_eq!(data.len(), 512);
    assert_eq!(data[0], 0);
    assert_eq!(data[3], 0x300);
    assert_eq!(data[511], 511 << 8);
}

#[test]
fn test_completion_tracker() {
    let mut t = CompletionTracker::new(3);
    assert!(!t.done());
    assert_eq!(t.sends_completed(2), Ok(()));
    assert_eq!(t.sends_completed(2), Err(CompletionError::TooManySends));
    assert_eq!(t.sends_completed(1), Ok(()));
    for len in [10u16, 20, 30] {
        assert_eq!(t.receive_completed(len), Ok(()));
    }
    assert_eq!(t.receive_completed(40), Err(CompletionError::TooManyReceives));
    assert!(t.done());
    assert_eq!(t.lengths(), &vec![10u64, 20, 30]);
}

#[test]
fn test_barrier_decisions() {
    assert!(riscv_benchmarks::harts::hart_takes_part(3, 4));
    assert!(!riscv_benchmarks::harts::hart_takes_part(4, 4));
    assert_eq!(
        riscv_benchmarks::harts::barrier_arrive(false, 3, 4),
        (true, riscv_benchmarks::harts::BarrierStep::Release { sense: true })
    );
    assert_eq!(
        riscv_benchmarks::harts::barrier_arrive(true, 1, 4),
        (false, riscv_benchmarks::harts::BarrierStep::Wait { sense: false })
    );
}
