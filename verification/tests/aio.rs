//! Requests, completions and errors of the asynchronous I/O part.

use std::collections::HashMap;

use catio::aio::abi::{io_event, iocb, IocbCmd};
use catio::aio::context::{harvest, make_iocb, AioOp, TaskState};
use catio::error::{wrap_syscall, CatioError};

fn empty_request() -> iocb {
    iocb {
        aio_data: 0,
        aio_key: 0,
        aio_reserved1: 0,
        aio_lio_opcode: 0,
        aio_reqprio: 0,
        aio_fildes: 0,
        aio_buf: 0,
        aio_nbytes: 0,
        aio_offset: 0,
        aio_reserved2: 0,
        aio_flags: 0,
        aio_resfd: 0,
    }
}

fn completion(data: u64) -> io_event {
    io_event { data, ..io_event::empty() }
}

#[test]
fn commands_have_their_numbers() {
    let commands = [
        (IocbCmd::IO_CMD_PREAD, 0),
        (IocbCmd::IO_CMD_PWRITE, 1),
        (IocbCmd::IO_CMD_FSYNC, 2),
        (IocbCmd::IO_CMD_FDSYNC, 3),
        (IocbCmd::IO_CMD_POLL, 5),
        (IocbCmd::IO_CMD_NOOP, 6),
        (IocbCmd::IO_CMD_PREADV, 7),
        (IocbCmd::IO_CMD_PWRITEV, 8),
    ];
    for (command, number) in commands {
        assert_eq!(number, command.code());
    }
}

#[test]
fn requests_carry_their_operation() {
    let read = make_iocb(AioOp::Read(3, 0x1000, 512, 1024));
    let expected = iocb {
        aio_lio_opcode: 0,
        aio_fildes: 3,
        aio_buf: 0x1000,
        aio_nbytes: 1024,
        aio_offset: 512,
        ..empty_request()
    };
    assert_eq!(expected, read);

    let write = make_iocb(AioOp::Write(4, 0x2000, 0, 1024));
    let expected = iocb {
        aio_lio_opcode: 1,
        aio_fildes: 4,
        aio_buf: 0x2000,
        aio_nbytes: 1024,
        ..empty_request()
    };
    assert_eq!(expected, write);

    let sync = make_iocb(AioOp::Fsync(5));
    assert_eq!(iocb { aio_lio_opcode: 2, aio_fildes: 5, ..empty_request() }, sync);
    let sync = make_iocb(AioOp::Fdatasync(6));
    assert_eq!(iocb { aio_lio_opcode: 3, aio_fildes: 6, ..empty_request() }, sync);
    let noop = make_iocb(AioOp::Noop);
    assert_eq!(iocb { aio_lio_opcode: 6, ..empty_request() }, noop);
    assert_eq!(u32::MAX, make_iocb(AioOp::Fsync(-1)).aio_fildes);
}

#[test]
fn completions_mark_their_tasks() {
    let mut tasks = HashMap::new();
    tasks.insert(1, TaskState::Allocated);
    tasks.insert(2, TaskState::Polled);
    tasks.insert(3, TaskState::Allocated);
    let events = vec![completion(2), completion(1), io_event::empty()];
    assert_eq!(Ok(2), harvest(2, &events, &mut tasks));
    assert_eq!(TaskState::Done, tasks[&1]);
    assert_eq!(TaskState::Done, tasks[&2]);
    assert_eq!(TaskState::Allocated, tasks[&3]);
    assert!(tasks[&1].poll());
    assert!(!tasks[&3].poll());
    assert_eq!(Ok(0), harvest(0, &events, &mut tasks));
    assert_eq!(TaskState::Allocated, tasks[&3]);
}

#[test]
fn failed_harvests_mark_nothing() {
    let mut tasks = HashMap::new();
    tasks.insert(7, TaskState::Polled);
    let events = vec![completion(7)];
    assert_eq!(Err(CatioError::Syscall(0)), harvest(-4, &events, &mut tasks));
    assert_eq!(TaskState::Polled, tasks[&7]);
    assert!(!tasks[&7].poll());
}

#[test]
fn system_calls_succeed_or_fail() {
    assert_eq!(Ok(0), wrap_syscall(0));
    assert_eq!(Ok(5), wrap_syscall(5));
    assert_eq!(Ok(i32::MAX), wrap_syscall(i32::MAX));
    assert_eq!(Err(CatioError::Syscall(0)), wrap_syscall(-1));
    assert_eq!(Err(CatioError::Syscall(0)), wrap_syscall(-22));
    assert_eq!(Err(CatioError::Syscall(0)), wrap_syscall(i32::MIN));
}
