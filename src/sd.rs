//! The SD card controller's status codes, read as results.
use vstd::prelude::*;

verus! {

/// Why the SD card controller failed to start.
#[derive(Debug, PartialEq, Eq, Structural, Clone, Copy)]
pub enum Error {
    Timeout,
    SendingCommand,
    Other,
}

/// A handle to an SD card controller.
#[derive(Debug)]
pub struct Sd;

/// Why a sector read was refused or failed.
#[derive(Debug, PartialEq, Eq, Structural, Clone, Copy)]
pub enum ReadError {
    /// The buffer holds fewer than `SECTOR_SIZE` bytes: its length.
    InvalidBufferSize(usize),
    /// The sector number does not fit the controller's `i32`.
    InvalidSectorNumber(u64),
    /// The controller timed out.
    TimedOut,
    /// The controller reported another error.
    Other,
}

/// The bytes of one sector.
pub const SECTOR_SIZE: usize = 512;

/// The largest sector number the controller takes: `2^31 - 1`.
pub const MAX_SECTOR: u64 = 0x7FFF_FFFF;

/// The controller's error code for a timeout.
pub const TIMEOUT_CODE: i64 = -1;

impl Sd {
    /// The handle, or the error, that the controller's initialisation status
    /// `init_result` means: 0 is success, -1 a timeout, -2 a failure to send
    /// commands, anything else another error.
    pub fn new(init_result: i32) -> (r: Result<Sd, Error>)
        ensures
            init_result == 0 <==> r is Ok,
            init_result == -1 ==> r == Err::<Sd, Error>(Error::Timeout),
            init_result == -2 ==> r == Err::<Sd, Error>(Error::SendingCommand),
            init_result != 0 && init_result != -1 && init_result != -2 ==> r == Err::<Sd, Error>(
                Error::Other,
            ),
    {
        match init_result {
            0 => Ok(Sd),
            -1 => Err(Error::Timeout),
            -2 => Err(Error::SendingCommand),
            _ => Err(Error::Other),
        }
    }

    /// Checks a request to read sector `n` into a buffer of `buf_len` bytes,
    /// and returns the sector number as the controller takes it.
    pub fn read_request(&self, n: u64, buf_len: usize) -> (r: Result<i32, ReadError>)
        ensures
            buf_len < SECTOR_SIZE ==> r == Err::<i32, ReadError>(
                ReadError::InvalidBufferSize(buf_len),
            ),
            buf_len >= SECTOR_SIZE && n > MAX_SECTOR ==> r == Err::<i32, ReadError>(
                ReadError::InvalidSectorNumber(n),
            ),
            buf_len >= SECTOR_SIZE && n <= MAX_SECTOR ==> r == Ok::<i32, ReadError>(n as i32),
    {
        if buf_len < SECTOR_SIZE {
            return Err(ReadError::InvalidBufferSize(buf_len));
        }
        if n > MAX_SECTOR {
            return Err(ReadError::InvalidSectorNumber(n));
        }
        Ok(n as i32)
    }

    /// What a read returned: any count but 0 is the number of bytes read,
    /// taken as it is; 0 means an error, the one that the controller's last
    /// error code `sd_err` names.
    pub fn read_outcome(&self, read: i32, sd_err: i64) -> (r: Result<usize, ReadError>)
        ensures
            read != 0 ==> r == Ok::<usize, ReadError>(read as usize),
            read == 0 && sd_err == TIMEOUT_CODE ==> r == Err::<usize, ReadError>(
                ReadError::TimedOut,
            ),
            read == 0 && sd_err != TIMEOUT_CODE ==> r == Err::<usize, ReadError>(ReadError::Other),
    {
        if read == 0 {
            if sd_err == TIMEOUT_CODE {
                Err(ReadError::TimedOut)
            } else {
                Err(ReadError::Other)
            }
        } else {
            Ok(read as usize)
        }
    }
}

} // verus!
