use ptkgenerator::pt_ctrl::{fetch_data, ioctl_outcome, poll_out_buffer, AddrRange, EventInfo, PtSetupInfo};

#[test]
fn fetch_stops_at_empty_window() {
    let mut ring = vec![0xFFu8; 32];
    ring[0] = 1;
    ring[1] = 2;
    ring[2] = 3;
    let mut out = vec![0u8; 8];
    let n = fetch_data(&mut ring, 0, &mut out);
    assert_eq!(n, 3);
    assert_eq!(&out[..3], &[1, 2, 3]);
    assert_eq!(&out[3..], &[0, 0, 0, 0, 0]);
    assert!(ring.iter().all(|b| *b == 0xFF));
}

#[test]
fn fetch_keeps_reading_across_short_gaps() {
    let mut ring = vec![0xFFu8; 32];
    ring[0] = 1;
    ring[5] = 9;
    let mut out = vec![0u8; 10];
    let n = fetch_data(&mut ring, 0, &mut out);
    assert_eq!(n, 6);
    assert_eq!(&out[..6], &[1, 0xFF, 0xFF, 0xFF, 0xFF, 9]);
}

#[test]
fn fetch_wraps_around() {
    let mut ring = vec![0xFFu8; 16];
    ring[14] = 7;
    ring[15] = 8;
    ring[0] = 9;
    let mut out = vec![0u8; 4];
    let n = fetch_data(&mut ring, 14, &mut out);
    assert_eq!(n, 3);
    assert_eq!(&out[..3], &[7, 8, 9]);
}

#[test]
fn fetch_fills_output() {
    let mut ring: Vec<u8> = (0..64).map(|i| i as u8).collect();
    let mut out = vec![0u8; 5];
    assert_eq!(fetch_data(&mut ring, 10, &mut out), 5);
    assert_eq!(out, vec![10, 11, 12, 13, 14]);
    assert_eq!(ring[10], 0xFF);
    assert_eq!(ring[15], 15);
}

#[test]
fn poll_advances_read_position() {
    let mut ring = vec![0xFFu8; 16];
    ring[14] = 7;
    ring[15] = 8;
    ring[0] = 9;
    let mut pos = 14usize;
    let mut out = vec![0u8; 4];
    assert_eq!(poll_out_buffer(&mut ring, &mut pos, &mut out), 3);
    assert_eq!(pos, 1);
    assert_eq!(poll_out_buffer(&mut ring, &mut pos, &mut out), 0);
    assert_eq!(pos, 1);
}

#[test]
fn addr_range_new_is_zero() {
    assert_eq!(AddrRange::new(), AddrRange { addr_n_a: 0, addr_n_b: 0, cfg_mode: 0 });
}

#[test]
fn setup_request_fields() {
    let r = PtSetupInfo::no_pmi(1234, 256, 3, 5, 1, 2, 0x1000, 0x2000);
    assert_eq!((r.pid, r.buff_size, r.mtc_freq, r.psb_freq, r.cyc_thld), (1234, 256, 3, 5, 1));
    assert_eq!((r.ret_compress, r.event_num, r.no_pmi), (0, 16, 1));
    assert_eq!(r.addrs_cfg[0], AddrRange { addr_n_a: 0x1000, addr_n_b: 0x2000, cfg_mode: 2 });
    assert_eq!(r.addrs_cfg[3], AddrRange::new());
    assert_eq!(r.event_info[31], EventInfo { idx: 0, event_handle: 0 });
}

#[test]
fn ioctl_outcomes() {
    assert_eq!(ioctl_outcome(1, None, 0), Ok(()));
    assert_eq!(ioctl_outcome(0, None, 7), Err(7));
    assert_eq!(ioctl_outcome(1, Some(8), 8), Ok(()));
    assert_eq!(ioctl_outcome(1, Some(8), 4), Err(4));
}
