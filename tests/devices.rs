use kernel::checks::{check_alloc, check_mbr};
use kernel::sd::{Error, ReadError, Sd};

#[test]
fn sd_init_codes() {
    assert!(Sd::new(0).is_ok());
    assert!(matches!(Sd::new(-1), Err(Error::Timeout)));
    assert!(matches!(Sd::new(-2), Err(Error::SendingCommand)));
    assert!(matches!(Sd::new(-7), Err(Error::Other)));
}

#[test]
fn sd_read_request_checks() {
    let sd = Sd::new(0).unwrap();
    assert_eq!(sd.read_request(3, 511), Err(ReadError::InvalidBufferSize(511)));
    assert_eq!(sd.read_request(1 << 31, 512), Err(ReadError::InvalidSectorNumber(1 << 31)));
    assert_eq!(sd.read_request((1 << 31) - 1, 512), Ok(0x7FFF_FFFF));
    assert_eq!(sd.read_outcome(512, 0), Ok(512));
    assert_eq!(sd.read_outcome(0, -1), Err(ReadError::TimedOut));
    assert_eq!(sd.read_outcome(0, -5), Err(ReadError::Other));
    assert_eq!(sd.read_outcome(-3, -1), Ok(-3i32 as usize));
}

#[test]
fn mbr_dump_layout() {
    let mut sector = [0u8; 512];
    sector[0] = 0xAB;
    sector[21] = 0x0F;
    sector[511] = 0x55;
    let text = check_mbr(&sector);
    let lines: Vec<&str> = text.split('\n').collect();
    assert_eq!(lines.len(), 28);
    assert_eq!(lines[0], "Master Boot Record:");
    assert!(lines[1].starts_with("offset 000: AB 00 00 "));
    assert!(lines[2].starts_with("offset 014: 00 0F 00 "));
    assert_eq!(lines[26], format!("offset 1F4: {}55 ", "00 ".repeat(11)));
    assert_eq!(lines[27], "");
    assert_eq!(lines[1].len(), "offset 000: ".len() + 20 * 3);
}

#[test]
fn alloc_check_lines() {
    let lines = check_alloc();
    assert_eq!(lines.len(), 101);
    assert_eq!(lines[0], "[0]");
    assert_eq!(lines[2], "[0, 1, 2]");
    assert_eq!(lines[99], format!("{:?}", (0..100).collect::<Vec<i32>>()));
    assert_eq!(lines[100], "Hello String!");
}
