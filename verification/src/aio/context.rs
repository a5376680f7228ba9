//! Requests, and the tasks that wait for their completion.

use std::collections::HashMap;

use vstd::prelude::*;

use crate::aio::abi::{io_event, iocb, IocbCmd};
use crate::error::{wrap_syscall, CatioError};

verus! {

/// An operation to submit. Buffers are given by their address.
#[derive(Clone, Copy, Debug, PartialEq, Eq, Structural)]
pub enum AioOp {
    /// Positioned read: the file to read, the buffer, the offset and the size.
    Read(i32, u64, u64, u64),
    /// Positioned write: the file to write, the buffer, the offset and the size.
    Write(i32, u64, u64, u64),
    /// File sync: the file to sync.
    Fsync(i32),
    /// File data sync: the file to sync.
    Fdatasync(i32),
    /// Nothing.
    Noop,
}

/// What a task that waits for a completion has come to.
#[derive(Clone, Copy, Debug, PartialEq, Eq, Structural)]
pub enum TaskState {
    /// The task is allocated but has not been polled yet.
    Allocated,
    /// The task has been polled.
    Polled,
    /// The operation is done but the future has not finished.
    Done,
    /// The future has finished.
    Finished,
    /// The task is cancelled.
    Cancelled,
}

impl TaskState {
    /// Whether the operation of the task is still under way.
    pub open spec fn is_under_way(self) -> bool {
        self is Allocated || self is Polled
    }

    /// The operation of the task has completed.
    pub fn complete(self) -> (next: TaskState)
        requires
            self.is_under_way(),
        ensures
            next is Done,
    {
        TaskState::Done
    }

    /// Returns whether the future is ready. A finished or a cancelled one must
    /// not be polled.
    pub fn poll(self) -> (ready: bool)
        requires
            self.is_under_way() || self is Done,
        ensures
            ready == self is Done,
    {
        match self {
            TaskState::Done => true,
            _ => false,
        }
    }
}

/// The request for a command on a file, with everything else left at zero.
pub open spec fn request(cmd: IocbCmd, fd: i32, buf: u64, offset: u64, size: u64) -> iocb {
    iocb {
        aio_data: 0,
        aio_key: 0,
        aio_reserved1: 0,
        aio_lio_opcode: cmd.number(),
        aio_reqprio: 0,
        aio_fildes: fd as u32,
        aio_buf: buf,
        aio_nbytes: size,
        aio_offset: offset,
        aio_reserved2: 0,
        aio_flags: 0,
        aio_resfd: 0,
    }
}

/// A request says what was asked for: the command by its number, the file, the
/// buffer, the offset and the size. The descriptor of the file is taken as it is, in
/// 32 bits. Everything else is zero.
pub proof fn law_requests_say_what_is_asked(
    cmd: IocbCmd,
    fd: i32,
    buf: u64,
    offset: u64,
    size: u64,
)
    ensures
        ({
            let r = request(cmd, fd, buf, offset, size);
            &&& r.aio_lio_opcode == (match cmd {
                IocbCmd::IO_CMD_PREAD => 0int,
                IocbCmd::IO_CMD_PWRITE => 1,
                IocbCmd::IO_CMD_FSYNC => 2,
                IocbCmd::IO_CMD_FDSYNC => 3,
                IocbCmd::IO_CMD_POLL => 5,
                IocbCmd::IO_CMD_NOOP => 6,
                IocbCmd::IO_CMD_PREADV => 7,
                IocbCmd::IO_CMD_PWRITEV => 8,
            })
            &&& r.aio_fildes == (if fd >= 0 {
                fd as int
            } else {
                fd + 0x1_0000_0000
            })
            &&& r.aio_buf == buf
            &&& r.aio_offset == offset
            &&& r.aio_nbytes == size
            &&& r.aio_data == 0
            &&& r.aio_key == 0
            &&& r.aio_reserved1 == 0
            &&& r.aio_reqprio == 0
            &&& r.aio_reserved2 == 0
            &&& r.aio_flags == 0
            &&& r.aio_resfd == 0
        }),
{
    assert(fd < 0 ==> fd as u32 == fd + 0x1_0000_0000) by (bit_vector);
}

/// Makes the request for an operation.
pub fn make_iocb(op: AioOp) -> (made: iocb)
    ensures
        made == match op {
            AioOp::Read(fd, buf, offset, size) => request(
                IocbCmd::IO_CMD_PREAD,
                fd,
                buf,
                offset,
                size,
            ),
            AioOp::Write(fd, buf, offset, size) => request(
                IocbCmd::IO_CMD_PWRITE,
                fd,
                buf,
                offset,
                size,
            ),
            AioOp::Fsync(fd) => request(IocbCmd::IO_CMD_FSYNC, fd, 0, 0, 0),
            AioOp::Fdatasync(fd) => request(IocbCmd::IO_CMD_FDSYNC, fd, 0, 0, 0),
            AioOp::Noop => request(IocbCmd::IO_CMD_NOOP, 0, 0, 0, 0),
        },
{
    let (cmd, fd, buf, offset, size): (IocbCmd, i32, u64, u64, u64) = match op {
        AioOp::Read(fd, buf, offset, size) => (IocbCmd::IO_CMD_PREAD, fd, buf, offset, size),
        AioOp::Write(fd, buf, offset, size) => (IocbCmd::IO_CMD_PWRITE, fd, buf, offset, size),
        AioOp::Fsync(fd) => (IocbCmd::IO_CMD_FSYNC, fd, 0, 0, 0),
        AioOp::Fdatasync(fd) => (IocbCmd::IO_CMD_FDSYNC, fd, 0, 0, 0),
        AioOp::Noop => (IocbCmd::IO_CMD_NOOP, 0, 0, 0, 0),
    };
    iocb {
        aio_lio_opcode: cmd.code(),
        aio_fildes: #[verifier::truncate] (fd as u32),
        aio_buf: buf,
        aio_nbytes: size,
        aio_offset: offset,
        aio_data: 0,
        aio_key: 0,
        aio_reserved1: 0,
        aio_reqprio: 0,
        aio_reserved2: 0,
        aio_flags: 0,
        aio_resfd: 0,
    }
}

/// Whether the first `n` events report the completion of different tasks, whose
/// operations are under way.
pub open spec fn is_harvest(
    events: Seq<io_event>,
    n: int,
    tasks: Map<u64, TaskState>,
) -> bool {
    &&& n <= events.len()
    &&& forall|i: int|
        0 <= i < n ==> {
            &&& tasks.contains_key((#[trigger] events[i]).data)
            &&& tasks[events[i].data].is_under_way()
        }
    &&& forall|i: int, j: int|
        0 <= i < j < n ==> (#[trigger] events[i]).data != (#[trigger] events[j]).data
}

/// Whether one of the first `n` events is for a task.
pub open spec fn is_reported(events: Seq<io_event>, n: int, id: u64) -> bool {
    exists|i: int| 0 <= i < n && (#[trigger] events[i]).data == id
}

/// One more event reports one more task: the one that its data names.
pub proof fn law_events_report_their_tasks(events: Seq<io_event>, n: int, id: u64)
    requires
        0 <= n < events.len(),
    ensures
        !is_reported(events, 0, id),
        is_reported(events, n + 1, id) <==> is_reported(events, n, id) || events[n].data == id,
{
    if is_reported(events, n, id) {
        let i = choose|i: int| 0 <= i < n && (#[trigger] events[i]).data == id;
        assert(0 <= i < n + 1 && events[i].data == id);
    }
}

/// Takes in the events of one harvest, given what the system call returned, and
/// marks their tasks as done. Returns how many there were.
pub fn harvest(result: i32, events: &Vec<io_event>, tasks: &mut HashMap<u64, TaskState>) -> (taken:
    Result<usize, CatioError>)
    requires
        result > 0 ==> is_harvest(events@, result as int, old(tasks)@),
    ensures
        result < 0 ==> taken == Err::<usize, CatioError>(CatioError::Syscall(0)) && final(tasks)@
            == old(tasks)@,
        result >= 0 ==> {
            &&& taken == Ok::<usize, CatioError>(result as usize)
            &&& final(tasks)@.dom() == old(tasks)@.dom()
            &&& forall|id: u64| #[trigger]
                old(tasks)@.contains_key(id) ==> final(tasks)@[id] == (if is_reported(
                    events@,
                    result as int,
                    id,
                ) {
                    TaskState::Done
                } else {
                    old(tasks)@[id]
                })
        },
{
    let num_events = match wrap_syscall(result) {
        Ok(num) => num as usize,
        Err(error) => {
            return Err(error);
        },
    };
    let mut index: usize = 0;
    while index < num_events
        invariant
            index <= num_events == result,
            result > 0 ==> is_harvest(events@, result as int, old(tasks)@),
            tasks@.dom() == old(tasks)@.dom(),
            forall|id: u64| #[trigger]
                old(tasks)@.contains_key(id) ==> tasks@[id] == (if is_reported(
                    events@,
                    index as int,
                    id,
                ) {
                    TaskState::Done
                } else {
                    old(tasks)@[id]
                }),
        decreases num_events - index,
    {
        let data = events[index].data();
        proof {
            assert(old(tasks)@.contains_key(events@[index as int].data));
            assert(!is_reported(events@, index as int, data));
        }
        if let Some(state) = tasks.get(&data) {
            let next = state.complete();
            let ghost before = tasks@;
            tasks.insert(data, next);
            proof {
                assert(tasks@.dom() =~= old(tasks)@.dom());
                assert forall|id: u64| #[trigger] old(tasks)@.contains_key(id) implies tasks@[id]
                    == (if is_reported(events@, index + 1, id) {
                    TaskState::Done
                } else {
                    old(tasks)@[id]
                }) by {
                    if id == data {
                        assert(events@[index as int].data == id);
                    } else if is_reported(events@, index + 1, id) {
                        let i = choose|i: int|
                            0 <= i < index + 1 && (#[trigger] events@[i]).data == id;
                        assert(i < index);
                        assert(is_reported(events@, index as int, id));
                    } else {
                        assert(!is_reported(events@, index as int, id));
                    }
                }
            }
        }
        index = index + 1;
    }
    Ok(num_events)
}

} // verus!
