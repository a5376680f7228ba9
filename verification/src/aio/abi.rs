//! The kernel's view of a request and of its completion.

use vstd::prelude::*;

verus! {

/// A request, as the kernel takes it.
#[allow(non_camel_case_types)]
#[derive(Clone, Copy, Debug, PartialEq, Eq, Structural)]
pub struct iocb {
    /// Data to be returned in the event's data.
    pub aio_data: u64,
    /// Reserved for the kernel.
    pub aio_key: u32,
    /// Reserved for the kernel.
    pub aio_reserved1: u32,
    /// The code of an [`IocbCmd`].
    pub aio_lio_opcode: u16,
    /// Request priority.
    pub aio_reqprio: u16,
    /// The file descriptor.
    pub aio_fildes: u32,
    /// The address of the buffer.
    pub aio_buf: u64,
    /// The length of the buffer.
    pub aio_nbytes: u64,
    /// The position in the file.
    pub aio_offset: u64,
    /// Extra parameters.
    pub aio_reserved2: u64,
    /// Flags.
    pub aio_flags: u32,
    /// The eventfd to signal, where the flags ask for it.
    pub aio_resfd: u32,
}

/// A completion, as the kernel reports it.
#[allow(non_camel_case_types)]
#[derive(Clone, Copy, Debug, PartialEq, Eq, Structural)]
pub struct io_event {
    /// The data of the request.
    pub data: u64,
    /// The address of the request.
    pub obj: u64,
    /// The result.
    pub res: i64,
    /// A second result.
    pub res2: i64,
}

impl io_event {
    /// Makes an event to be filled in.
    pub fn empty() -> (event: io_event)
        ensures
            event == (io_event { data: 0, obj: 0, res: 0, res2: 0 }),
    {
        io_event { data: 0, obj: 0, res: 0, res2: 0 }
    }

    /// Returns the data of the request.
    pub fn data(&self) -> (data: u64)
        ensures
            data == self.data,
    {
        self.data
    }
}

/// The commands of the kernel interface.
#[allow(non_camel_case_types)]
#[derive(Clone, Copy, Debug, PartialEq, Eq, Structural)]
pub enum IocbCmd {
    /// Positioned read.
    IO_CMD_PREAD,
    /// Positioned write.
    IO_CMD_PWRITE,
    /// File sync.
    IO_CMD_FSYNC,
    /// File data sync.
    IO_CMD_FDSYNC,
    /// Poll.
    IO_CMD_POLL,
    /// Nothing.
    IO_CMD_NOOP,
    /// Positioned read into several buffers.
    IO_CMD_PREADV,
    /// Positioned write from several buffers.
    IO_CMD_PWRITEV,
}

impl IocbCmd {
    /// The number that the kernel knows the command by.
    pub open spec fn number(self) -> u16 {
        match self {
            IocbCmd::IO_CMD_PREAD => 0,
            IocbCmd::IO_CMD_PWRITE => 1,
            IocbCmd::IO_CMD_FSYNC => 2,
            IocbCmd::IO_CMD_FDSYNC => 3,
            IocbCmd::IO_CMD_POLL => 5,
            IocbCmd::IO_CMD_NOOP => 6,
            IocbCmd::IO_CMD_PREADV => 7,
            IocbCmd::IO_CMD_PWRITEV => 8,
        }
    }

    /// Returns the number that the kernel knows the command by.
    pub fn code(self) -> (code: u16)
        ensures
            code == self.number(),
    {
        match self {
            IocbCmd::IO_CMD_PREAD => 0,
            IocbCmd::IO_CMD_PWRITE => 1,
            IocbCmd::IO_CMD_FSYNC => 2,
            IocbCmd::IO_CMD_FDSYNC => 3,
            IocbCmd::IO_CMD_POLL => 5,
            IocbCmd::IO_CMD_NOOP => 6,
            IocbCmd::IO_CMD_PREADV => 7,
            IocbCmd::IO_CMD_PWRITEV => 8,
        }
    }
}

} // verus!
