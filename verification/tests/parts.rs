use turbofile::aio::Driver;
use turbofile::bridge::{
    driver_for, quiet_again, ring_again, rings, Drain, DriverFor, Registry,
};
use turbofile::cached::{
    all_begin, all_filled, kernel_offset, probe_found_end, probe_verdict, serve, size_unchanged,
    usable, AllStep, Fill, FillStep, Served,
};
use turbofile::deliver::{
    build_value, check_buffer, completion_result, deliver, is_done, os_code, Delivery, Output,
    Value,
};
use turbofile::effect::{orphaned, AfterOpen, Chunk, AfterReap, Opened, PendingOpen};
use turbofile::error::{
    append_lost, bad_handle, cancelled_error, driver_gone, is_cancelled, Error, ErrorKind,
};
use turbofile::group::{fits, plan, Piece, ReadGroup};
use turbofile::host::{off_max, Errno, OpenBits};
use turbofile::job::{
    fd_size, regular_file_size, step, Job, JobKind, ReadBuf, ReadJob, Stat, Step, Target, Transfer,
    Want, WriteJob,
};
use turbofile::limits::{inflight_limit, FALLBACK_MAX_INFLIGHT};
use turbofile::op::{Dest, Op, OpenSpec, Payload, Reply};
use turbofile::open::{
    called, holds_nul, open_flags, open_options, sized, AfterCall, RuntimeOpen, SizedOpen,
    OPEN_MODE,
};
use turbofile::residency::{
    cold_is_past_end, page_size, range_end, view_len, Cache, Check, Mapping, Question, Scan,
    ScanStep, Verdict, ViewStep, FLAGS_PER_CALL, HEADROOM,
};
use turbofile::task::{AppendJob, Outcome, Stage};

fn regular(size: u64) -> Result<Stat, Error> {
    Ok(Stat { size, regular: true })
}

fn read_job(want: Want, room: usize) -> Job<'static, u8> {
    Job {
        id: 1,
        cancelled: false,
        kind: JobKind::Read(ReadJob {
            handle: Some(1),
            fd: 5,
            owned_fd: false,
            pos: 100,
            want,
            buf: ReadBuf::Owned { data: Vec::new(), room },
            filled: 0,
        }),
        cb: 0,
    }
}

#[test]
fn the_hosts_codes_are_those_of_libc() {
    let errno = Errno::host();
    assert_eq!(errno.cancelled, libc::ECANCELED);
    assert_eq!(errno.again, libc::EAGAIN);
    assert_eq!(errno.interrupted, libc::EINTR);
    assert_eq!(errno.in_progress, libc::EINPROGRESS);
    for code in [errno.again, errno.interrupted, errno.in_progress] {
        assert!(!is_cancelled(&Error::Os(code), &errno));
    }
    let bits = OpenBits::host();
    assert_eq!(bits.read_write, libc::O_RDWR);
    assert_eq!(bits.exclusive, libc::O_EXCL);
    assert_eq!(off_max(), libc::off_t::MAX as i64);
}

#[test]
fn a_cancelled_error_is_recognised() {
    let errno = Errno::host();
    assert_eq!(cancelled_error(&errno), Error::Os(libc::ECANCELED));
    assert!(is_cancelled(&cancelled_error(&errno), &errno));
    assert!(!is_cancelled(&Error::Os(libc::EIO), &errno));
    assert!(!is_cancelled(&driver_gone(), &errno));
    let lost = Error::Custom { kind: ErrorKind::Other, message: "append task cancelled" };
    assert_eq!(append_lost(), lost);
    let bad = Error::Custom {
        kind: ErrorKind::InvalidInput,
        message: "unknown or closed turbofile handle",
    };
    assert_eq!(bad_handle(), bad);
}

#[test]
fn only_a_regular_files_size_is_trusted() {
    assert_eq!(regular_file_size(&regular(9)), Some(9));
    let fifo = Ok(Stat { size: 9, regular: false });
    assert_eq!(regular_file_size(&fifo), None);
    assert_eq!(regular_file_size(&Err(Error::Os(9))), None);
    assert_eq!(fd_size(&fifo), Ok(9));
    assert_eq!(fd_size(&Err(Error::Os(9))), Err(Error::Os(9)));
}

#[test]
fn a_full_buffer_of_a_read_to_end_grows() {
    let fifo = Ok(Stat { size: 0, regular: false });
    let mut job = read_job(Want::ToEnd, 2);
    assert_eq!(job.transfer(), Transfer::Read { fd: 5, offset: 100, target: Target::Fresh, len: 2 });
    assert_eq!(job.wants_stat(2), Some(5));
    assert_eq!(job.wants_stat(0), None);
    assert_eq!(step(&mut job, 2, vec![1, 2], &fifo), Step::More);
    let call = Transfer::Read { fd: 5, offset: 102, target: Target::Fresh, len: 65536 };
    assert_eq!(job.transfer(), call);
    assert_eq!(step(&mut job, 65536, vec![3; 65536], &fifo), Step::More);
    let call = Transfer::Read { fd: 5, offset: 65638, target: Target::Fresh, len: 65538 };
    assert_eq!(job.transfer(), call);
    match step(&mut job, 0, Vec::new(), &fifo) {
        Step::Done(Ok(Reply::Bytes(bytes))) => {
            assert_eq!(bytes.len(), 65538);
            assert_eq!(&bytes[..3], &[1, 2, 3]);
        }
        other => panic!("expected the bytes, got {other:?}"),
    }
}

#[test]
fn a_read_to_end_ends_at_the_current_size() {
    let mut job = read_job(Want::ToEnd, 4);
    assert_eq!(step(&mut job, 2, vec![1, 2], &regular(104)), Step::More);
    let done = step(&mut job, 2, vec![3, 4], &regular(104));
    assert_eq!(done, Step::Done(Ok(Reply::Bytes(vec![1, 2, 3, 4]))));
    // The reply has the bytes; the rest of the job is as it was.
    match &job.kind {
        JobKind::Read(read) => {
            assert_eq!((read.filled, read.pos, read.fd), (4, 100, 5));
            assert_eq!(read.want, Want::ToEnd);
            assert!(matches!(&read.buf, ReadBuf::Owned { data, room: 4 } if data.is_empty()));
        }
        other => panic!("expected a read, got {other:?}"),
    }
}

#[test]
fn a_settled_write_has_counted_its_last_chunk() {
    let mut job: Job<u8> = Job {
        id: 1,
        cancelled: false,
        kind: JobKind::Write(WriteJob {
            handle: None,
            fd: 5,
            owned_fd: true,
            pos: 10,
            append: false,
            data: Payload::Owned(b"abc".to_vec()),
            filled: 0,
        }),
        cb: 7,
    };
    assert_eq!(step(&mut job, 1, Vec::new(), &regular(0)), Step::More);
    let done = step(&mut job, 2, Vec::new(), &regular(0));
    assert_eq!(done, Step::Done(Ok(Reply::Written { n: 3, end: 13 })));
    match &job.kind {
        JobKind::Write(write) => {
            assert_eq!((write.filled, write.pos, write.append), (3, 10, false));
            assert_eq!(write.data.as_slice(), b"abc");
        }
        other => panic!("expected a write, got {other:?}"),
    }
}

#[test]
fn a_chunk_that_cannot_be_is_told_apart() {
    let job = read_job(Want::Exact(4), 4);
    assert!(job.accepts(4, 4));
    assert!(!job.accepts(5, 5));
    assert!(!job.accepts(3, 4));
    let write: Job<u8> = Job {
        id: 1,
        cancelled: false,
        kind: JobKind::Write(WriteJob {
            handle: None,
            fd: 3,
            owned_fd: true,
            pos: u64::MAX - 1,
            append: false,
            data: Payload::Owned(vec![0; 4]),
            filled: 0,
        }),
        cb: 0,
    };
    assert!(write.accepts(1, 0));
    assert!(!write.accepts(2, 0));
}

#[test]
fn the_kernels_limit_counts_only_when_it_was_read() {
    assert_eq!(inflight_limit(0, 90), 90);
    assert_eq!(inflight_limit(0, 0), FALLBACK_MAX_INFLIGHT);
    assert_eq!(inflight_limit(-1, 90), 16);
}

#[test]
fn a_request_in_progress_stays_in_flight() {
    let errno = Errno::host();
    let mut driver: Driver<u8> = Driver::new(2, errno);
    let pending = PendingOpen {
        id: 9,
        goal: AfterOpen::WriteFile { data: Payload::Owned(vec![1]) },
        cb: 3,
    };
    assert!(driver.opened(pending, Ok((4, 0))).is_none());
    let call = Transfer::Write { fd: 4, offset: 0, start: 0, len: 1 };
    assert_eq!(driver.next_job(), Some(call));
    assert_eq!(driver.unwritten(), Some(&[1u8][..]));
    driver.submitted(Ok(()), false);
    assert_eq!(driver.unwritten(), None);
    let chunk = || Chunk { n: 1, bytes: Vec::new(), stat: Err(Error::Os(1)) };
    assert!(matches!(driver.reap(0, errno.in_progress, chunk(), false), AfterReap::Running));
    match driver.reap(0, 0, chunk(), true) {
        AfterReap::Finished(finish) => {
            assert_eq!(finish.settled.result, Ok(Reply::Written { n: 1, end: 1 }));
            assert!(finish.owned.unwrap().away);
        }
        _ => panic!("expected the end of the job"),
    }
}

#[test]
fn an_orphan_keeps_its_descriptor_to_close() {
    let pending = || PendingOpen { id: 1, goal: AfterOpen::Handle, cb: 7u8 };
    let orphan = orphaned(Opened { pending: pending(), result: Ok((8, 0)) });
    assert_eq!(orphan.close, Some(8));
    assert_eq!(orphan.settled.cb, 7);
    assert_eq!(orphan.settled.result, Err(driver_gone()));
    let orphan = orphaned(Opened { pending: pending(), result: Err(Error::Os(2)) });
    assert_eq!(orphan.close, None);
}

#[test]
fn open_flags_follow_the_spec() {
    let bits = OpenBits::host();
    let flags = |spec: OpenSpec| open_flags(b"a", &spec, &bits);
    let none = OpenSpec::default();
    assert_eq!(flags(OpenSpec { read: true, ..none }), Ok(libc::O_RDONLY | libc::O_CLOEXEC));
    assert_eq!(
        flags(OpenSpec { write: true, create: true, truncate: true, ..none }),
        Ok(libc::O_WRONLY | libc::O_CLOEXEC | libc::O_TRUNC | libc::O_CREAT)
    );
    assert_eq!(
        flags(OpenSpec { read: true, append: true, create_new: true, ..none }),
        Ok(libc::O_RDWR | libc::O_CLOEXEC | libc::O_APPEND | libc::O_CREAT | libc::O_EXCL)
    );
    match flags(OpenSpec { create: true, ..none }) {
        Err(Error::Custom { kind: ErrorKind::InvalidInput, message }) => {
            assert_eq!(message, "open needs read or write access");
        }
        other => panic!("expected a refusal, got {other:?}"),
    }
    match open_flags(b"a\0b", &none, &bits) {
        Err(Error::Custom { kind: ErrorKind::InvalidInput, message }) => {
            assert_eq!(message, "path contains NUL");
        }
        other => panic!("expected a refusal, got {other:?}"),
    }
    assert!(holds_nul(b"\0") && !holds_nul(b""));
    assert_eq!(OPEN_MODE, 438);
}

#[test]
fn open_flags_say_what_was_asked_for() {
    let bits = OpenBits::host();
    let access = bits.read_only | bits.write_only | bits.read_write;
    for asked in 0..64u8 {
        let spec = OpenSpec {
            read: asked & 1 != 0,
            write: asked & 2 != 0,
            append: asked & 4 != 0,
            truncate: asked & 8 != 0,
            create: asked & 16 != 0,
            create_new: asked & 32 != 0,
        };
        let Ok(flags) = open_flags(b"a", &spec, &bits) else {
            assert!(!spec.read && !spec.write && !spec.append);
            continue;
        };
        let expected = match (spec.read, spec.write || spec.append) {
            (true, true) => libc::O_RDWR,
            (true, false) => libc::O_RDONLY,
            _ => libc::O_WRONLY,
        };
        assert_eq!(flags & access, expected);
        assert_eq!(flags & libc::O_APPEND != 0, spec.append);
        assert_eq!(flags & libc::O_TRUNC != 0, spec.truncate);
        assert_eq!(flags & libc::O_CREAT != 0, spec.create || spec.create_new);
        assert_eq!(flags & libc::O_EXCL != 0, spec.create_new);
    }
}

#[test]
fn an_open_asks_for_the_size_where_it_matters() {
    assert_eq!(called(&AfterOpen::Handle, Ok(5)), AfterCall::Size(5));
    assert_eq!(called(&AfterOpen::ReadFile { inline_max: 1 }, Ok(5)), AfterCall::Size(5));
    let write = AfterOpen::WriteFile { data: Payload::Owned(Vec::new()) };
    assert_eq!(called(&write, Ok(5)), AfterCall::Done(Ok((5, 0))));
    assert_eq!(called(&write, Err(Error::Os(2))), AfterCall::Done(Err(Error::Os(2))));
    assert_eq!(sized(5, &regular(9)), SizedOpen { result: Ok((5, 9)), close: None });
    let failed = SizedOpen { result: Err(Error::Os(5)), close: Some(5) };
    assert_eq!(sized(5, &Err(Error::Os(5))), failed);
}

#[test]
fn the_runtime_appends_by_a_flag() {
    let spec = OpenSpec { append: true, create: true, ..OpenSpec::default() };
    let options = RuntimeOpen {
        read: false,
        write: true,
        truncate: false,
        create: true,
        create_new: false,
        custom_flags: Some(8),
    };
    assert_eq!(open_options(&spec, Some(8)), options);
    let spec = OpenSpec { read: true, ..OpenSpec::default() };
    assert_eq!(open_options(&spec, Some(8)).custom_flags, None);
    assert!(!open_options(&spec, None).write);
}

#[test]
fn an_append_writes_all_of_its_bytes() {
    let mut job = AppendJob::new(Payload::Owned(b"abcde".to_vec()));
    assert_eq!(job.rest(), Some(&b"abcde"[..]));
    assert_eq!(job.wrote(Ok(2)), Ok(()));
    assert_eq!(job.rest(), Some(&b"cde"[..]));
    assert_eq!(job.wrote(Err(Error::Os(28))), Err(Error::Os(28)));
    assert_eq!(job.wrote(Ok(3)), Ok(()));
    assert_eq!(job.rest(), None);
}

#[test]
fn offsets_that_do_not_fit_are_declined() {
    assert_eq!(kernel_offset(5, 7, i64::MAX), Some(12));
    assert_eq!(kernel_offset(i64::MAX as u64, 0, i64::MAX), Some(i64::MAX));
    assert_eq!(kernel_offset(i64::MAX as u64, 1, i64::MAX), None);
    assert_eq!(kernel_offset(u64::MAX, 1, i64::MAX), None);
    assert_eq!(kernel_offset(10, 1, 10), None);
}

#[test]
fn a_fill_goes_on_until_full_or_ended() {
    let errno = Errno::host();
    let mut fill = Fill::new(10, 6);
    assert_eq!(fill.next(i64::MAX), FillStep::Read { offset: 10, start: 0, len: 6 });
    assert_eq!(fill.got(Ok(4), &errno), None);
    assert_eq!(fill.got(Err(libc::EINTR), &errno), None);
    assert_eq!(fill.next(i64::MAX), FillStep::Read { offset: 14, start: 4, len: 2 });
    assert_eq!(fill.got(Ok(0), &errno), Some(Some(4)));
    assert_eq!(fill.got(Ok(2), &errno), None);
    assert_eq!(fill.next(i64::MAX), FillStep::End(Some(6)));
    let mut cold = Fill::new(0, 1);
    assert_eq!(cold.got(Err(libc::EAGAIN), &errno), Some(None));
    assert_eq!(Fill::new(100, 1).next(50), FillStep::End(None));
    assert_eq!(Fill::new(100, 0).next(50), FillStep::End(Some(0)));
    assert!(usable(0) && !usable(-1));
}

#[test]
fn a_probe_tells_what_can_be_served() {
    let errno = Errno::host();
    assert_eq!(probe_verdict(Ok(0), &errno), Some(true));
    assert_eq!(probe_verdict(Ok(1), &errno), Some(true));
    assert_eq!(probe_verdict(Err(libc::EAGAIN), &errno), Some(true));
    assert_eq!(probe_verdict(Err(libc::EINTR), &errno), None);
    assert_eq!(probe_verdict(Err(libc::EOPNOTSUPP), &errno), Some(false));
    assert!(probe_found_end(Ok(0)));
    assert!(!probe_found_end(Ok(1)));
    assert!(!probe_found_end(Err(libc::EAGAIN)));
    assert!(size_unchanged(Some(3), 3));
    assert!(!size_unchanged(Some(4), 3));
    assert!(!size_unchanged(None, 3));
}

#[test]
fn a_cached_read_is_served_whole_or_short() {
    assert_eq!(serve(4, Some(4)), Served::Whole);
    assert_eq!(serve(4, Some(3)), Served::Prefix(3));
    assert_eq!(serve(4, None), Served::Decline);
    assert_eq!(serve(0, Some(0)), Served::Decline);
    assert_eq!(all_begin(None, 0), AllStep::Decline);
    assert_eq!(all_begin(Some(10), 4), AllStep::Fill { len: 6 });
    assert_eq!(all_begin(Some(10), 10), AllStep::CheckEnd { len: 0 });
    assert_eq!(all_begin(Some(10), 30), AllStep::CheckEnd { len: 0 });
    assert_eq!(all_filled(6, Some(6)), AllStep::CheckEnd { len: 6 });
    assert_eq!(all_filled(6, Some(5)), AllStep::Decline);
    assert_eq!(all_filled(6, None), AllStep::Decline);
}

#[test]
fn a_mapping_has_headroom_and_is_not_made_in_vain() {
    assert_eq!(view_len(1, 4096), Some(4096 + HEADROOM as usize));
    assert_eq!(view_len(4096, 4096), Some(4096 + (1 << 20)));
    assert_eq!(view_len(0, 4096), Some(1 << 20));
    assert_eq!(view_len(u64::MAX, 4096), None);
    assert_eq!(view_len(u64::MAX - (1 << 20), 1), Some(usize::MAX));
    assert_eq!(view_len(u64::MAX - (1 << 20) + 1, 1), None);
    assert_eq!(page_size(-1), 1);
    assert_eq!(page_size(16384), 16384);

    let mut cache = Cache::new();
    let len = 4096 + (1 << 20);
    assert_eq!(cache.ensure_view(10, None, 4096), ViewStep::Refuse);
    assert_eq!(cache.ensure_view(10, Some(100), 4096), ViewStep::Remap { len });
    assert_eq!(cache.can_serve(Some(100), 4096), ViewStep::Remap { len });
    assert_eq!(cache.mapped(None, 10), (false, None));
    let first = Mapping { addr: 0x10000, len };
    assert_eq!(cache.mapped(Some(first), 10), (true, None));
    assert_eq!(cache.can_serve(None, 4096), ViewStep::Ready);
    assert_eq!(cache.ensure_view(len as u64, None, 4096), ViewStep::Ready);
    assert_eq!(cache.ensure_view(len as u64 + 1, Some(100), 4096), ViewStep::Refuse);
    let grown = ViewStep::Remap { len: len + 4096 };
    assert_eq!(cache.ensure_view(len as u64 + 1, Some(4097), 4096), grown);
    let second = Mapping { addr: 0x900000, len: len + 4096 };
    assert_eq!(cache.mapped(Some(second), len as u64 + 1), (true, Some(first)));
    assert!(!cache.view_covers(u64::MAX));
    assert_eq!(range_end(5, 6), Some(11));
    assert_eq!(range_end(u64::MAX, 1), None);
}

#[test]
fn a_scan_asks_about_every_page_once() {
    let mut scan = Scan::new(5000, 5000 + 300 * 4096, 4096);
    assert_eq!(scan.next(), Some((4096, 256 * 4096)));
    assert_eq!(scan.answered(0, &[1; 256]), ScanStep::More);
    assert_eq!(scan.next(), Some((257 * 4096, 45 * 4096)));
    let mut flags = [1u8; 256];
    flags[3] = 0xfe;
    flags[7] = 0;
    assert_eq!(scan.answered(0, &flags), ScanStep::Cold { at: 260 * 4096 });
    assert_eq!(scan.answered(-1, &flags), ScanStep::Unknown);
    assert_eq!(scan.answered(0, &[3; 45]), ScanStep::More);
    assert_eq!(scan.next(), None);
    assert_eq!(Scan::new(8192, 8192, 4096).next(), None);
    assert!(cold_is_past_end(Some(4096), 4096));
    assert!(!cold_is_past_end(Some(4097), 4096));
    assert!(!cold_is_past_end(None, 4096));
}

/// Answer the questions of a check about a file of `size` bytes whose page
/// `cold`, if any, is not resident.
fn resident(cache: &mut Cache, size: Option<u64>, cold: Option<usize>, pos: u64, len: usize) -> bool {
    let page = 4096;
    let mut verdict = cache.check(pos, len, page);
    let mut asked = 0;
    loop {
        let (check, question) = match verdict {
            Verdict::Resident(yes) => return yes,
            Verdict::Ask(check, question) => (check, question),
        };
        asked += 1;
        assert!(asked < 100);
        verdict = match question {
            Question::Size => cache.learned_size(check, size, page),
            Question::Remap { len } => {
                let mapping = Mapping { addr: 0x100000, len };
                assert!(mapping.fits(page));
                cache.learned_mapping(check, Some(mapping), page).0
            }
            Question::Pages { addr, len } => {
                let first = (addr - 0x100000) / page;
                let mut flags = [1u8; FLAGS_PER_CALL];
                for i in 0..len / page {
                    if Some(first + i) == cold {
                        flags[i] = 0;
                    }
                }
                cache.learned_pages(check, 0, &flags, page)
            }
        };
    }
}

#[test]
fn a_range_is_resident_when_every_page_with_data_is() {
    let size = Some(600 * 4096);
    let mut cache = Cache::new();
    assert!(resident(&mut cache, size, None, 10, 599 * 4096));
    assert_eq!(cache.view, Some(Mapping { addr: 0x100000, len: 600 * 4096 + (1 << 20) }));
    assert!(!resident(&mut cache, size, Some(400), 0, 600 * 4096));
    assert!(resident(&mut cache, size, Some(400), 0, 400 * 4096));
    // A cold page past the end does no harm, one with data does.
    assert!(resident(&mut cache, size, Some(600), 599 * 4096, 8192));
    assert!(!resident(&mut cache, Some(600 * 4096 + 1), Some(600), 599 * 4096, 8192));
    // Beyond the headroom, and what is not a regular file.
    assert!(!resident(&mut cache, size, None, 900 * 4096, 4096));
    assert!(!resident(&mut cache, None, None, 900 * 4096, 4096));
    assert!(!resident(&mut cache, size, None, u64::MAX, 1));
    assert!(!resident(&mut Cache::new(), None, None, 0, 1));
}

#[test]
fn a_check_that_gets_no_answer_says_no() {
    let page = 4096;
    let mut cache = Cache::new();
    let (check, question) = match cache.check(0, 10, page) {
        Verdict::Ask(check, question) => (check, question),
        other => panic!("expected a question, got {other:?}"),
    };
    assert_eq!((check, question), (Check::Sizing { pos: 0, end: 10 }, Question::Size));
    let len = 4096 + (1 << 20);
    let (check, question) = match cache.learned_size(check, Some(10), page) {
        Verdict::Ask(check, question) => (check, question),
        other => panic!("expected a question, got {other:?}"),
    };
    assert_eq!(question, Question::Remap { len });
    assert_eq!(cache.learned_mapping(check, None, page), (Verdict::Resident(false), None));
    let mapping = Mapping { addr: 0x4000, len };
    let (verdict, before) = cache.learned_mapping(check, Some(mapping), page);
    assert_eq!(before, None);
    let (check, question) = match verdict {
        Verdict::Ask(check, question) => (check, question),
        other => panic!("expected a question, got {other:?}"),
    };
    assert_eq!(question, Question::Pages { addr: 0x4000, len: 4096 });
    assert_eq!(cache.learned_pages(check, -1, &[1], page), Verdict::Resident(false));
    assert_eq!(cache.learned_pages(check, 0, &[1], page), Verdict::Resident(true));
    let cold = Verdict::Ask(Check::Cold { at: 0 }, Question::Size);
    assert_eq!(cache.learned_pages(check, 0, &[0], page), cold);
    assert!(!Mapping { addr: usize::MAX - 100, len: 50 }.fits(page));
}

#[test]
fn a_piece_reads_into_its_place() {
    let piece = Piece { start: 8, pos: 15, len: 2 };
    match piece.op(3, 0x1000) {
        Op::ReadAt { handle: 3, pos: 15, dest } => {
            assert_eq!(dest, Dest::Into { addr: 0x1008, len: 2 });
        }
        other => panic!("expected a read, got {other:?}"),
    }
    let dest = Dest::Into { addr: usize::MAX, len: 1 };
    assert!(!Op::ReadAt { handle: 1, pos: 0, dest }.fits());
    let dest = Dest::Into { addr: usize::MAX, len: 0 };
    assert!(Op::ReadAt { handle: 1, pos: 0, dest }.fits());
    assert!(Op::Nop.fits());
}

#[test]
fn a_stage_takes_only_what_its_call_can_bring() {
    let done = Outcome::Done(Ok(()));
    assert!(Stage::Finishing.accepts(&done));
    assert!(!Stage::FindingSize.accepts(&done));
    assert!(!Stage::Opening { id: 1 }.accepts(&Outcome::Size(Ok(1))));
    assert!(Stage::Opening { id: 1 }.accepts(&Outcome::Opened(Err(Error::Os(2)))));
    assert!(!Stage::Writing { n: 2, pos: u64::MAX - 1 }.accepts(&done));
    assert!(Stage::Writing { n: 1, pos: u64::MAX - 1 }.accepts(&done));
    assert!(Stage::ReadingEnd.accepts(&Outcome::Bytes(Ok(Vec::new()))));
}

#[test]
fn a_large_read_is_cut_into_pieces() {
    assert_eq!(plan(7, 10, 0), Err("chunk must be positive"));
    assert_eq!(plan(7, 0, 4), Ok(Vec::new()));
    let pieces = vec![
        Piece { start: 0, pos: 7, len: 4 },
        Piece { start: 4, pos: 11, len: 4 },
        Piece { start: 8, pos: 15, len: 2 },
    ];
    assert_eq!(plan(7, 10, 4), Ok(pieces));
    assert_eq!(plan(0, 8, 4).unwrap().len(), 2);
    assert_eq!(plan(0, 3, usize::MAX), Ok(vec![Piece { start: 0, pos: 0, len: 3 }]));
    // Only the starts of the pieces have to exist.
    assert!(fits(u64::MAX - 8, 10, 4) && !fits(u64::MAX - 7, 10, 4));
    let last = Piece { start: 8, pos: u64::MAX, len: 2 };
    assert_eq!(plan(u64::MAX - 8, 10, 4).unwrap()[2], last);
    assert!(fits(u64::MAX, 10, 0) && fits(u64::MAX, 0, 4) && fits(u64::MAX, 10, 10));
    assert_eq!(plan(u64::MAX, 10, 0), Err("chunk must be positive"));
}

#[test]
fn a_read_group_settles_with_its_last_piece() {
    let full = |n| Ok(Reply::Read { n });
    let mut group = ReadGroup::new(3, 10);
    assert_eq!(group.chunk_done(8, 2, full(0)), None);
    assert_eq!(group.chunk_done(0, 4, full(4)), None);
    assert_eq!(group.chunk_done(4, 4, full(3)), Some(full(7)));

    let mut group = ReadGroup::new(2, 8);
    assert_eq!(group.chunk_done(4, 4, full(4)), None);
    assert_eq!(group.chunk_done(0, 4, full(4)), Some(full(8)));

    let mut group = ReadGroup::new(3, 10);
    assert_eq!(group.chunk_done(0, 4, Err(Error::Os(5))), None);
    assert_eq!(group.chunk_done(4, 4, Err(Error::Os(6))), None);
    assert_eq!(group.chunk_done(8, 2, full(2)), Some(Err(Error::Os(5))));

    let mut group = ReadGroup::new(1, 4);
    let mismatch = Error::Custom {
        kind: ErrorKind::Other,
        message: "mismatched turbofile reply in read group",
    };
    assert_eq!(group.chunk_done(0, 4, Ok(Reply::Unit)), Some(Err(mismatch)));

    let mut empty = ReadGroup::new(0, 0);
    assert_eq!(empty.chunk_done(0, 0, full(0)), Some(full(0)));
}

#[test]
fn a_burst_rings_once_and_a_racing_push_is_taken_up() {
    assert!(rings(false, true));
    assert!(!rings(true, true));
    assert!(!rings(false, false));
    // The queue is found empty, and filled again before the second look.
    let mut drain = Drain::woken();
    assert_eq!(drain, Drain::Taking);
    drain = Drain::took(false);
    assert_eq!(drain, Drain::Taking);
    drain = Drain::took(true);
    assert_eq!(drain, Drain::Emptied);
    drain = Drain::disarmed();
    assert_eq!(drain, Drain::Disarmed);
    drain = Drain::rechecked(false);
    assert_eq!(drain, Drain::Rearming);
    assert_eq!(Drain::rearmed(false), Drain::Taking);
    assert_eq!(Drain::rearmed(true), Drain::Idle);
    assert_eq!(Drain::rechecked(true), Drain::Idle);
}

/// A bridge with threads that still have pushes to make.
#[derive(Clone, Copy, Debug)]
struct World {
    pushes: usize,
    queued: usize,
    delivered: usize,
    armed: bool,
    wake: bool,
    to_arm: usize,
    to_ring: usize,
    rung: usize,
    drain: Drain,
}

/// Follow every order in which the accesses can happen.
fn explore(w: World, ends: &mut usize) {
    let mut moved = false;
    if w.pushes > 0 {
        moved = true;
        let next = World { pushes: w.pushes - 1, queued: w.queued + 1, to_arm: w.to_arm + 1, ..w };
        explore(next, ends);
    }
    if w.to_arm > 0 {
        moved = true;
        let ring = rings(w.armed, true) as usize;
        let next = World { armed: true, to_arm: w.to_arm - 1, to_ring: w.to_ring + ring, ..w };
        explore(next, ends);
    }
    if w.to_ring > 0 {
        moved = true;
        explore(World { wake: true, to_ring: w.to_ring - 1, rung: w.rung + 1, ..w }, ends);
    }
    let next = match w.drain {
        Drain::Idle if w.wake => Some(World { wake: false, drain: Drain::woken(), ..w }),
        Drain::Idle => None,
        Drain::Taking => Some(World {
            queued: 0,
            delivered: w.delivered + w.queued,
            drain: Drain::took(w.queued == 0),
            ..w
        }),
        Drain::Emptied => Some(World { armed: false, drain: Drain::disarmed(), ..w }),
        Drain::Disarmed => Some(World { drain: Drain::rechecked(w.queued == 0), ..w }),
        Drain::Rearming => Some(World { armed: true, drain: Drain::rearmed(w.armed), ..w }),
    };
    if let Some(next) = next {
        moved = true;
        explore(next, ends);
    }
    if !moved {
        *ends += 1;
        assert_eq!(w.queued, 0, "{w:?}");
        assert_eq!(w.delivered, 3, "{w:?}");
        assert!(w.rung <= 3, "{w:?}");
    }
}

#[test]
fn no_order_of_accesses_leaves_a_completion_behind() {
    let start = World {
        pushes: 3,
        queued: 0,
        delivered: 0,
        armed: false,
        wake: false,
        to_arm: 0,
        to_ring: 0,
        rung: 0,
        drain: Drain::Idle,
    };
    let mut ends = 0;
    explore(start, &mut ends);
    assert!(ends > 1000);
}

#[test]
fn pipe_calls_are_repeated_when_interrupted() {
    let errno = Errno::host();
    assert!(ring_again(Err(libc::EINTR), &errno));
    assert!(!ring_again(Err(libc::EAGAIN), &errno));
    assert!(!ring_again(Ok(1), &errno));
    assert!(quiet_again(Ok(64), &errno));
    assert!(!quiet_again(Ok(0), &errno));
    assert!(quiet_again(Err(libc::EINTR), &errno));
    assert!(!quiet_again(Err(libc::EAGAIN), &errno));
}

#[test]
fn bridges_are_kept_by_loop() {
    let mut registry: Registry<&str> = Registry::new();
    assert_eq!(registry.find(1), None);
    registry.insert(1, "one");
    registry.insert(2, "two");
    registry.insert(3, "three");
    registry.prune(&vec![2, 9]);
    assert_eq!(registry.find(1), Some(&"one"));
    assert_eq!(registry.find(2), None);
    // Whatever happens to the others, a loop keeps its bridge.
    registry.insert(4, "four");
    registry.remove(4);
    registry.prune(&vec![4, 5]);
    assert_eq!(registry.find(1), Some(&"one"));
    registry.remove(1);
    assert_eq!(registry.find(1), None);
    assert_eq!(registry.find(3), Some(&"three"));
    registry.clear();
    assert_eq!(registry.find(3), None);
    assert_eq!(driver_for(7, Some(7)), DriverFor::Keep);
    assert_eq!(driver_for(7, Some(6)), DriverFor::Start { forget_loops: true });
    assert_eq!(driver_for(7, None), DriverFor::Start { forget_loops: false });
}

#[test]
fn a_reply_becomes_the_value_that_is_awaited() {
    let fill = Output::FillBytes { len: 4 };
    assert_eq!(build_value(fill, Reply::Read { n: 4 }), Ok(Value::Whole));
    assert_eq!(build_value(fill, Reply::Read { n: 1 }), Ok(Value::Prefix(1)));
    assert_eq!(build_value(Output::ReadInto, Reply::Read { n: 1 }), Ok(Value::Count(1)));
    let mismatch = build_value(Output::Plain, Reply::Read { n: 1 });
    assert_eq!(mismatch, Err(Reply::Read { n: 1 }));
    assert_eq!(build_value(Output::Plain, Reply::Unit), Ok(Value::Nothing));
    assert_eq!(build_value(Output::Plain, Reply::Size(3)), Ok(Value::Size(3)));
    let bytes = Reply::Bytes(vec![1, 2]);
    assert_eq!(build_value(fill, bytes), Ok(Value::Bytes(vec![1, 2])));
    let handle = Reply::Handle { id: 1, size: 2, fd: 3 };
    assert_eq!(build_value(Output::Plain, handle), Ok(Value::Handle { id: 1, size: 2, fd: 3 }));
    let written = Reply::Written { n: 1, end: 2 };
    assert_eq!(build_value(Output::ReadInto, written), Ok(Value::Written { n: 1, end: 2 }));
}

#[test]
fn a_settled_op_ends_its_future_once() {
    let errno = Errno::host();
    let plain = Output::Plain;
    assert_eq!(deliver(true, Ok(Reply::Unit), plain, &errno), Delivery::Leave);
    let cancelled = Err(cancelled_error(&errno));
    assert_eq!(deliver(false, cancelled, plain, &errno), Delivery::Cancel);
    let failed = Err(Error::Os(libc::ENOENT));
    assert_eq!(deliver(false, failed, plain, &errno), Delivery::Raise(Error::Os(libc::ENOENT)));
    let done = deliver(false, Ok(Reply::Unit), plain, &errno);
    assert_eq!(done, Delivery::Resolve(Value::Nothing));
    let odd = deliver(false, Ok(Reply::Read { n: 2 }), plain, &errno);
    assert_eq!(odd, Delivery::Mismatch(Reply::Read { n: 2 }));
    assert!(is_done(None) && is_done(Some(true)) && !is_done(Some(false)));
    assert_eq!(os_code(&Error::Os(5)), Some(5));
    assert_eq!(os_code(&driver_gone()), None);
}

#[test]
fn buffers_are_checked_before_use() {
    assert_eq!(check_buffer(true, true, false), Err("readinto needs a writable buffer"));
    assert_eq!(check_buffer(true, false, false), Err("buffer must be C-contiguous"));
    assert_eq!(check_buffer(false, true, false), Err("buffer must be C-contiguous"));
    assert_eq!(check_buffer(false, true, true), Ok(()));
    assert_eq!(check_buffer(true, false, true), Ok(()));
    assert_eq!(completion_result(-2), Err(Error::Os(2)));
    assert_eq!(completion_result(0), Ok(0));
    assert_eq!(completion_result(7), Ok(7));
}

#[test]
fn a_payload_is_its_bytes() {
    let data = vec![1u8, 2, 3];
    let borrowed = Payload::Borrowed(&data);
    let owned = Payload::Owned(data.clone());
    assert_eq!(borrowed.as_slice(), owned.as_slice());
    assert_eq!((borrowed.len(), owned.len()), (3, 3));
    assert!(!borrowed.is_empty());
    assert!(Payload::Owned(Vec::new()).is_empty());
}
