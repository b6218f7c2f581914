use std::path::{Path, PathBuf};

use turbofile::channel::{unbounded, Polled, Rx, Tx};
use turbofile::effect::{
    unit_outcome, AfterMsg, AfterReap, AfterReturn, AfterSubmit, CancelStep, Chunk, Effect, Finish,
    HelperJob, OpenJob, Opened, Settlement, Wait,
};
use turbofile::error::{cancelled_error, is_cancelled, Error, ErrorKind};
use turbofile::host::{Errno, OpenBits, Platform};
use turbofile::job::{Stat, SyncCall, Target, Transfer};
use turbofile::limits::{SUSPEND_MAX_NS, SUSPEND_MIN_NS};
use turbofile::op::{BackendKind, Dest, Msg, Op, OpenSpec, Payload, Reply};
use turbofile::open::{called, open_flags, sized, AfterCall};
use turbofile::port::{give_back, Port};
use turbofile::submit::{aio_label, started, Driver, Mechanism};
use turbofile::task::{begin, resume, AppendJob, Call, Outcome, Progress, Runtime};

/// Where the memory that reads fill lies.
const BASE: usize = 0x1000;

/// Files in memory, and the descriptors open on them.
struct Disk {
    files: Vec<(PathBuf, Vec<u8>)>,
    fds: Vec<Option<(usize, bool)>>,
    memory: Vec<u8>,
    /// The most bytes that one call moves.
    most: usize,
}

impl Disk {
    fn new() -> Disk {
        Disk { files: Vec::new(), fds: Vec::new(), memory: vec![0; 64], most: usize::MAX }
    }

    fn put(&mut self, path: &str, content: &[u8]) {
        self.files.push((PathBuf::from(path), content.to_vec()));
    }

    fn content(&self, path: &str) -> Vec<u8> {
        let wanted = PathBuf::from(path);
        self.files.iter().find(|(p, _)| *p == wanted).unwrap().1.clone()
    }

    fn open_fds(&self) -> usize {
        self.fds.iter().filter(|fd| fd.is_some()).count()
    }

    fn open(&mut self, path: &Path, spec: &OpenSpec) -> Result<i32, Error> {
        open_flags(path.to_str().unwrap().as_bytes(), spec, &OpenBits::host())?;
        let index = match self.files.iter().position(|(p, _)| p == path) {
            Some(index) => index,
            None if spec.create || spec.create_new => {
                self.files.push((path.to_path_buf(), Vec::new()));
                self.files.len() - 1
            }
            None => return Err(Error::Os(libc::ENOENT)),
        };
        if spec.truncate {
            self.files[index].1.clear();
        }
        self.fds.push(Some((index, spec.append)));
        Ok(self.fds.len() as i32 + 2)
    }

    fn slot(&self, fd: i32) -> (usize, bool) {
        self.fds[fd as usize - 3].expect("descriptor is open")
    }

    fn close(&mut self, fd: i32) -> Result<(), Error> {
        match self.fds[fd as usize - 3].take() {
            Some(_) => Ok(()),
            None => Err(Error::Os(libc::EBADF)),
        }
    }

    fn stat(&self, fd: i32) -> Result<Stat, Error> {
        let (index, _) = self.slot(fd);
        Ok(Stat { size: self.files[index].1.len() as u64, regular: true })
    }

    fn pread(&self, fd: i32, offset: u64, len: usize) -> Vec<u8> {
        let data = &self.files[self.slot(fd).0].1;
        let from = (offset as usize).min(data.len());
        let to = (from + len.min(self.most)).min(data.len());
        data[from..to].to_vec()
    }

    fn read(&mut self, fd: i32, offset: u64, target: Target, len: usize) -> (usize, Vec<u8>) {
        let bytes = self.pread(fd, offset, len);
        let n = bytes.len();
        match target {
            Target::Fresh => {
                let mut out = Vec::with_capacity(len);
                out.extend_from_slice(&bytes);
                (n, out)
            }
            Target::At(addr) => {
                self.memory[addr - BASE..addr - BASE + n].copy_from_slice(&bytes);
                (n, Vec::new())
            }
        }
    }

    fn write(&mut self, fd: i32, offset: u64, bytes: &[u8]) -> usize {
        let (index, append) = self.slot(fd);
        let n = bytes.len().min(self.most);
        let data = &mut self.files[index].1;
        let at = if append { data.len() } else { offset as usize };
        if data.len() < at + n {
            data.resize(at + n, 0);
        }
        data[at..at + n].copy_from_slice(&bytes[..n]);
        n
    }

    fn set_len(&mut self, fd: i32, size: u64) {
        let (index, _) = self.slot(fd);
        self.files[index].1.resize(size as usize, 0);
    }
}

/// A request at the kernel.
struct Flight {
    call: Transfer,
    data: Vec<u8>,
    aborted: bool,
}

/// The queueing driver on a disk in memory.
struct AioRig<'a> {
    disk: Disk,
    errno: Errno,
    front: Driver<'a, usize>,
    port: Port<'a, usize>,
    helper_rx: Rx<HelperJob<'a, usize>>,
    back_tx: Tx<Opened<'a, usize>>,
    flying: Vec<Flight>,
    settled: Vec<(usize, Result<Reply, Error>)>,
    /// Paths whose open does not return until it is let go.
    stuck: Vec<PathBuf>,
    waiting: Vec<OpenJob<'a, usize>>,
    /// Whether the kernel takes no requests.
    full: bool,
    /// Whether requests complete.
    completes: bool,
    opens_here: usize,
    opens_away: usize,
    next_cb: usize,
}

impl<'a> AioRig<'a> {
    fn new(disk: Disk, max_inflight: usize) -> AioRig<'a> {
        let (tx, rx) = unbounded();
        let (helper_tx, helper_rx) = unbounded();
        let (back_tx, back_rx) = unbounded();
        let errno = Errno::host();
        AioRig {
            disk,
            errno,
            front: Driver::new(tx, aio_label()),
            port: Port::new(rx, helper_tx, back_rx, max_inflight, errno),
            helper_rx,
            back_tx,
            flying: Vec::new(),
            settled: Vec::new(),
            stuck: Vec::new(),
            waiting: Vec::new(),
            full: false,
            completes: true,
            opens_here: 0,
            opens_away: 0,
            next_cb: 0,
        }
    }

    fn settle(&mut self, s: Settlement<usize>) {
        self.settled.push((s.cb, s.result));
    }

    fn submit(&mut self, op: Op<'a>) -> (u64, usize) {
        let cb = self.next_cb;
        self.next_cb += 1;
        let (id, unsent) = self.front.submit(op, cb);
        assert!(unsent.is_none());
        (id, cb)
    }

    fn result(&mut self, cb: usize) -> Option<Result<Reply, Error>> {
        let at = self.settled.iter().position(|(c, _)| *c == cb)?;
        Some(self.settled.swap_remove(at).1)
    }

    fn submit_wait(&mut self, op: Op<'a>) -> Result<Reply, Error> {
        let (_, cb) = self.submit(op);
        for _ in 0..10_000 {
            self.pass();
            if let Some(result) = self.result(cb) {
                return result;
            }
        }
        panic!("op did not settle");
    }

    fn run(&mut self) {
        for _ in 0..1000 {
            self.pass();
        }
    }

    fn pass(&mut self) {
        assert_ne!(self.port.driver.wait(), Wait::Exit);
        self.reap();
        while let Some(msg) = self.port.take_msg() {
            self.handle(msg);
            self.submit_ready();
        }
        self.helpers();
        while let Some(opened) = self.port.take_opened() {
            match self.port.driver.handle_opened(opened) {
                AfterReturn::Cancelled { close, settled } => {
                    if let Some(fd) = close {
                        self.disk.close(fd).unwrap();
                    }
                    self.settle(settled);
                }
                AfterReturn::Settled(s) => self.settle(s),
                AfterReturn::Queued => {}
            }
            self.submit_ready();
        }
        self.submit_ready();
        self.port.driver.end_pass();
        let wait = self.port.driver.suspend_ns;
        assert!(SUSPEND_MIN_NS <= wait && wait <= SUSPEND_MAX_NS);
    }

    fn handle(&mut self, msg: Msg<'a, usize>) {
        let mut stat = Err(Error::Os(libc::EBADF));
        if let Msg::Submit { op, .. } = &msg {
            if let Some(fd) = self.port.driver.op_wants_stat(op) {
                stat = self.disk.stat(fd);
            }
        }
        let unread = self.port.unread();
        match self.port.driver.handle_msg(msg, unread, &stat) {
            AfterMsg::Op(None) => {}
            AfterMsg::Op(Some(effect)) => self.perform(effect),
            AfterMsg::Cancel(CancelStep::Finished(finish)) => self.finish(finish),
            AfterMsg::Cancel(CancelStep::Abort { index, .. }) => self.flying[index].aborted = true,
            AfterMsg::Cancel(CancelStep::AtOpen) => {}
            AfterMsg::Cancel(CancelStep::Unknown) => {}
        }
    }

    fn perform(&mut self, effect: Effect<'a, usize>) {
        match effect {
            Effect::Settle(s) => self.settle(s),
            Effect::OpenHere(job) => {
                self.opens_here += 1;
                self.open_here(job);
            }
            Effect::OpenAway(job) => {
                self.opens_away += 1;
                if let Some(HelperJob::Open(job)) = self.port.hand_over(HelperJob::Open(job)) {
                    self.open_here(job);
                }
            }
            Effect::Close { fd, cb } => {
                let closed = self.disk.close(fd);
                self.settle(unit_outcome(cb, closed));
            }
            Effect::SetLen { fd, size, cb } => {
                self.disk.set_len(fd, size);
                self.settle(unit_outcome(cb, Ok(())));
            }
        }
    }

    fn open(&mut self, job: &OpenJob<'a, usize>) -> Result<(i32, u64), Error> {
        let opened = self.disk.open(&job.path, &job.spec);
        match called(&job.pending.goal, opened) {
            AfterCall::Done(result) => result,
            AfterCall::Size(fd) => {
                let open = sized(fd, &self.disk.stat(fd));
                if let Some(fd) = open.close {
                    self.disk.close(fd).unwrap();
                }
                open.result
            }
        }
    }

    fn open_here(&mut self, job: OpenJob<'a, usize>) {
        let result = self.open(&job);
        if let Some(s) = self.port.driver.opened(job.pending, result) {
            self.settle(s);
        }
    }

    fn helpers(&mut self) {
        while let Polled::Item(job) = self.helper_rx.try_recv() {
            match job {
                HelperJob::Close(fd) => self.disk.close(fd).unwrap(),
                HelperJob::Open(job) if self.stuck.contains(&job.path) => self.waiting.push(job),
                HelperJob::Open(job) => self.open_away(job),
            }
        }
    }

    fn open_away(&mut self, job: OpenJob<'a, usize>) {
        let result = self.open(&job);
        let opened = Opened { pending: job.pending, result };
        if let Some(orphan) = give_back(&mut self.back_tx, opened) {
            if let Some(fd) = orphan.close {
                self.disk.close(fd).unwrap();
            }
            self.settle(orphan.settled);
        }
    }

    fn let_go(&mut self) {
        self.stuck.clear();
        while let Some(job) = self.waiting.pop() {
            self.open_away(job);
        }
    }

    fn finish(&mut self, finish: Finish<usize>) {
        if let Some(owned) = finish.owned {
            let back = match owned.away {
                true => self.port.hand_over(HelperJob::Close(owned.fd)),
                false => Some(HelperJob::Close(owned.fd)),
            };
            if let Some(HelperJob::Close(fd)) = back {
                self.disk.close(fd).unwrap();
            }
        }
        self.settle(finish.settled);
        if let Some(deferred) = finish.deferred {
            let closed = self.disk.close(deferred.fd);
            self.settle(unit_outcome(deferred.cb, closed));
        }
    }

    fn submit_ready(&mut self) {
        while let Some(call) = self.port.driver.next_job() {
            let data = self.port.driver.unwritten().map(|b| b.to_vec()).unwrap_or_default();
            let accepted = if self.full { Err(self.errno.again) } else { Ok(()) };
            let unread = self.port.unread();
            match self.port.driver.submitted(accepted, unread) {
                AfterSubmit::Inflight => {
                    self.flying.push(Flight { call, data, aborted: false });
                }
                AfterSubmit::RunSync => self.run_sync(),
                AfterSubmit::Full => return,
                AfterSubmit::Finished(finish) => self.finish(finish),
            }
        }
    }

    fn run_sync(&mut self) {
        while let Some(call) = self.port.driver.sync_call() {
            let data = self.port.driver.unwritten().map(|b| b.to_vec()).unwrap_or_default();
            let (n, bytes) = match call {
                SyncCall::Pread { fd, offset, target, len } => {
                    self.disk.read(fd, offset, target, len)
                }
                SyncCall::Pwrite { fd, offset, .. } => {
                    (self.disk.write(fd, offset, &data), Vec::new())
                }
                SyncCall::Write { fd, .. } => (self.disk.write(fd, 0, &data), Vec::new()),
                SyncCall::Fsync { .. } => (0, Vec::new()),
            };
            let job = self.port.driver.submitting.as_ref().unwrap();
            assert!(job.accepts(n, bytes.len()));
            let stat = match job.wants_stat(n) {
                Some(fd) => self.disk.stat(fd),
                None => Err(Error::Os(libc::EBADF)),
            };
            let unread = self.port.unread();
            if let Some(finish) = self.port.driver.sync_done(Ok(Chunk { n, bytes, stat }), unread) {
                self.finish(finish);
                return;
            }
        }
    }

    fn reap(&mut self) {
        let mut index = 0;
        while index < self.flying.len() {
            let flight = &self.flying[index];
            let mut chunk = Chunk { n: 0, bytes: Vec::new(), stat: Err(Error::Os(libc::EBADF)) };
            let err = if flight.aborted {
                self.errno.cancelled
            } else if !self.completes {
                self.errno.in_progress
            } else {
                let (n, bytes) = match flight.call {
                    Transfer::Read { fd, offset, target, len } => {
                        self.disk.read(fd, offset, target, len)
                    }
                    Transfer::Write { fd, offset, .. } => {
                        (self.disk.write(fd, offset, &flight.data), Vec::new())
                    }
                    Transfer::Fsync { .. } => (0, Vec::new()),
                };
                let job = &self.port.driver.inflight[index];
                assert!(job.accepts(n, bytes.len()));
                if let Some(fd) = job.wants_stat(n) {
                    chunk.stat = self.disk.stat(fd);
                }
                chunk.n = n;
                chunk.bytes = bytes;
                0
            };
            let unread = self.port.unread();
            match self.port.driver.reap(index, err, chunk, unread) {
                AfterReap::Running => index += 1,
                AfterReap::Requeued => {
                    self.flying.swap_remove(index);
                    self.submit_ready();
                }
                AfterReap::Finished(finish) => {
                    self.flying.swap_remove(index);
                    self.finish(finish);
                }
            }
        }
    }
}

/// The runtime backend on a disk in memory.
struct TaskRig {
    disk: Disk,
    errno: Errno,
    runtime: Runtime<i32>,
    next_op: u64,
    /// The number of transfers after which the running op is cancelled.
    cancel_after: Option<usize>,
}

impl TaskRig {
    fn new(disk: Disk) -> TaskRig {
        TaskRig {
            disk,
            errno: Errno::host(),
            runtime: Runtime::new(),
            next_op: 1,
            cancel_after: None,
        }
    }

    fn submit_wait(&mut self, op: Op<'_>) -> Result<Reply, Error> {
        let mut task = self.submit(op);
        loop {
            if let Some(result) = self.advance(&mut task) {
                return result;
            }
        }
    }

    /// Take an op in and begin its task.
    fn submit<'o>(&mut self, op: Op<'o>) -> Task<'o> {
        let id = self.next_op;
        self.next_op += 1;
        let open_id = self.runtime.enter(id, &op);
        if self.cancel_after == Some(0) {
            self.runtime.cancel(id);
        }
        let (file, progress) = match self.runtime.start(id, &op, &self.errno) {
            Ok(file) => {
                let cancelled = self.runtime.is_cancelled(id);
                let fd = file.unwrap_or(-1);
                (file, begin(op, open_id, fd, cancelled, &self.errno))
            }
            Err(e) => (None, Progress::Settled { result: Err(e), register: None }),
        };
        Task { id, file, own: false, transfers: 0, progress: Some(progress) }
    }

    /// Make the next call of a task, or settle it.
    fn advance(&mut self, task: &mut Task<'_>) -> Option<Result<Reply, Error>> {
        let (stage, call) = match task.progress.take().expect("not settled") {
            Progress::Settled { result, register } => {
                match (register, task.file) {
                    (Some(handle), Some(fd)) => self.runtime.register(handle, fd),
                    (None, Some(fd)) if task.own => self.disk.close(fd).unwrap(),
                    _ => {}
                }
                return Some(self.settle(task.id, result));
            }
            Progress::HandOff { size, fd } => {
                let file = task.file.expect("opened");
                let reply = self.runtime.hand_off(size, fd, file);
                return Some(self.settle(task.id, Ok(reply)));
            }
            Progress::Await { stage, call } => (stage, call),
        };
        let fd = task.file.unwrap_or(-1);
        let outcome = match call {
            Call::Open { path, spec } => {
                let opened = self.disk.open(&path, &spec);
                if let Ok(fd) = opened {
                    task.file = Some(fd);
                    task.own = true;
                }
                Outcome::Opened(opened.map(|fd| fd as i64))
            }
            Call::Metadata => Outcome::Size(self.disk.stat(fd).map(|s| s.size)),
            Call::Read { offset, target, len } => {
                task.transfers += 1;
                Outcome::Chunk(Ok(self.disk.read(fd, offset, target, len)))
            }
            Call::ReadToEnd { pos, .. } => {
                task.transfers += 1;
                let mut bytes = Vec::new();
                loop {
                    let more = self.disk.pread(fd, pos + bytes.len() as u64, usize::MAX / 2);
                    if more.is_empty() {
                        break Outcome::Bytes(Ok(bytes));
                    }
                    bytes.extend(more);
                }
            }
            Call::WriteAll { pos, data } => {
                task.transfers += 1;
                let mut at = 0;
                while at < data.len() {
                    at += self.disk.write(fd, pos + at as u64, &data.as_slice()[at..]);
                }
                Outcome::Done(Ok(()))
            }
            Call::Append { data } => {
                task.transfers += 1;
                let mut job = AppendJob::new(data);
                while let Some(rest) = job.rest() {
                    let n = self.disk.write(fd, 0, rest);
                    job.wrote(Ok(n)).unwrap();
                }
                Outcome::Done(Ok(()))
            }
            Call::SyncAll | Call::SyncData => Outcome::Done(Ok(())),
            Call::SetLen { size } => {
                self.disk.set_len(fd, size);
                Outcome::Done(Ok(()))
            }
            Call::Close => {
                task.file = None;
                Outcome::Done(self.disk.close(fd))
            }
        };
        if self.cancel_after == Some(task.transfers) {
            self.runtime.cancel(task.id);
        }
        assert!(stage.accepts(&outcome));
        let cancelled = self.runtime.is_cancelled(task.id);
        task.progress = Some(resume(stage, outcome, cancelled, &self.errno));
        None
    }

    fn settle(&mut self, id: u64, result: Result<Reply, Error>) -> Result<Reply, Error> {
        self.runtime.settled(id);
        assert!(!self.runtime.is_cancelled(id));
        result
    }
}

/// One task of the runtime backend.
struct Task<'o> {
    id: u64,
    file: Option<i32>,
    own: bool,
    transfers: usize,
    progress: Option<Progress<'o>>,
}

enum Rig<'a> {
    Task(TaskRig),
    Aio(AioRig<'a>),
}

impl<'a> Rig<'a> {
    fn new(kind: BackendKind, disk: Disk) -> Rig<'a> {
        match kind {
            BackendKind::Compio => Rig::Task(TaskRig::new(disk)),
            BackendKind::DarwinAio => Rig::Aio(AioRig::new(disk, 16)),
        }
    }

    fn submit_wait(&mut self, op: Op<'a>) -> Result<Reply, Error> {
        match self {
            Rig::Task(rig) => rig.submit_wait(op),
            Rig::Aio(rig) => rig.submit_wait(op),
        }
    }

    fn disk(&self) -> &Disk {
        match self {
            Rig::Task(rig) => &rig.disk,
            Rig::Aio(rig) => &rig.disk,
        }
    }

    fn open_handle(&mut self, path: &str, spec: OpenSpec) -> u64 {
        match self.submit_wait(Op::Open { path: PathBuf::from(path), spec }).unwrap() {
            Reply::Handle { id, .. } => id,
            other => panic!("expected handle, got {other:?}"),
        }
    }
}

fn backends() -> Vec<BackendKind> {
    vec![BackendKind::Compio, BackendKind::DarwinAio]
}

fn reading() -> OpenSpec {
    OpenSpec { read: true, ..OpenSpec::default() }
}

#[test]
fn compio_write_read_roundtrip() {
    write_read_roundtrip(BackendKind::Compio);
}

#[test]
fn darwin_aio_write_read_roundtrip() {
    write_read_roundtrip(BackendKind::DarwinAio);
}

fn write_read_roundtrip(kind: BackendKind) {
    let mut rig = Rig::new(kind, Disk::new());
    let spec = OpenSpec { write: true, create: true, truncate: true, ..OpenSpec::default() };
    let handle = rig.open_handle("roundtrip.bin", spec);

    let payload = b"turbofile speaks completion queues".to_vec();
    let write = Op::WriteAt {
        handle,
        pos: 0,
        data: Payload::Owned(payload.clone()),
        append: false,
    };
    match rig.submit_wait(write).unwrap() {
        Reply::Written { n, end } => {
            assert_eq!(n, payload.len());
            assert_eq!(end, payload.len() as u64);
        }
        other => panic!("expected written, got {other:?}"),
    }
    rig.submit_wait(Op::Close { handle }).unwrap();

    let handle = rig.open_handle("roundtrip.bin", reading());
    let read = Op::ReadAt { handle, pos: 0, dest: Dest::Alloc { len: payload.len() } };
    match rig.submit_wait(read).unwrap() {
        Reply::Bytes(bytes) => assert_eq!(bytes, payload),
        other => panic!("expected bytes, got {other:?}"),
    }
    rig.submit_wait(Op::Close { handle }).unwrap();
    assert_eq!(rig.disk().open_fds(), 0);
}

#[test]
fn compio_borrowed_write_and_read_into() {
    borrowed_write_and_read_into(BackendKind::Compio);
}

#[test]
fn darwin_aio_borrowed_write_and_read_into() {
    borrowed_write_and_read_into(BackendKind::DarwinAio);
}

fn borrowed_write_and_read_into(kind: BackendKind) {
    let source: Box<[u8]> = b"zero copy or bust".to_vec().into_boxed_slice();
    let mut rig = Rig::new(kind, Disk::new());
    let spec = OpenSpec {
        read: true,
        write: true,
        create: true,
        truncate: true,
        ..OpenSpec::default()
    };
    let handle = rig.open_handle("zero_copy.bin", spec);

    let write = Op::WriteAt { handle, pos: 0, data: Payload::Borrowed(&source), append: false };
    match rig.submit_wait(write).unwrap() {
        Reply::Written { n, .. } => assert_eq!(n, source.len()),
        other => panic!("expected written, got {other:?}"),
    }

    let dest = Dest::Into { addr: BASE, len: source.len() };
    match rig.submit_wait(Op::ReadAt { handle, pos: 0, dest }).unwrap() {
        Reply::Read { n } => assert_eq!(n, source.len()),
        other => panic!("expected read, got {other:?}"),
    }
    assert_eq!(&rig.disk().memory[..source.len()], &source[..]);

    // Reading past EOF into caller memory reports the short length.
    match rig.submit_wait(Op::ReadAt { handle, pos: 8, dest }).unwrap() {
        Reply::Read { n } => assert_eq!(n, source.len() - 8),
        other => panic!("expected read, got {other:?}"),
    }
    assert_eq!(&rig.disk().memory[..source.len() - 8], &source[8..]);

    rig.submit_wait(Op::Close { handle }).unwrap();
}

#[test]
fn backend_label_reports_the_live_driver() {
    let label = started(Some(Ok(Mechanism::IoUring))).unwrap();
    let (tx, _rx) = unbounded::<Msg<usize>>();
    let driver = Driver::new(tx, label);
    assert!(driver.backend_label().starts_with("compio-"), "got {label}");
    assert_eq!(driver.backend_label(), "compio-io-uring");
    assert_eq!(started(Some(Ok(Mechanism::Poll))), Ok("compio-polling"));
    assert_eq!(started(Some(Ok(Mechanism::Iocp))), Ok("compio-iocp"));
    assert_eq!(aio_label(), "darwin-aio");
}

#[test]
fn append_writes_land_at_the_end() {
    for kind in backends() {
        let mut disk = Disk::new();
        disk.put("append.bin", b"prefix-");
        let mut rig = Rig::new(kind, disk);
        let spec = OpenSpec { append: true, ..OpenSpec::default() };
        let handle = rig.open_handle("append.bin", spec);
        // pos 0 must be ignored for append handles.
        let write = Op::WriteAt {
            handle,
            pos: 0,
            data: Payload::Owned(b"suffix".to_vec()),
            append: true,
        };
        match rig.submit_wait(write).unwrap() {
            Reply::Written { n, end } => {
                assert_eq!(n, 6);
                assert_eq!(end, 13, "backend {kind:?}");
            }
            other => panic!("expected written, got {other:?}"),
        }
        rig.submit_wait(Op::Close { handle }).unwrap();
        assert_eq!(rig.disk().content("append.bin"), b"prefix-suffix");
    }
}

#[test]
fn sixty_four_concurrent_reads_all_complete() {
    let payload: Vec<u8> = (0..256u32).flat_map(|i| i.to_le_bytes()).collect();
    let mut disk = Disk::new();
    disk.put("many.bin", &payload);
    let mut rig = AioRig::new(disk, 16);
    let open = Op::Open { path: PathBuf::from("many.bin"), spec: reading() };
    let handle = match rig.submit_wait(open).unwrap() {
        Reply::Handle { id, .. } => id,
        other => panic!("expected handle, got {other:?}"),
    };
    let mut out = Vec::new();
    for i in 0..64u64 {
        let pos = (i % 16) * 64;
        let read = Op::ReadAt { handle, pos, dest: Dest::Alloc { len: 64 } };
        out.push((pos, rig.submit(read).1));
    }
    rig.pass();
    assert_eq!(rig.flying.len(), 16);
    rig.run();
    let mut seen = 0;
    for (pos, cb) in out {
        match rig.result(cb).expect("settled").unwrap() {
            Reply::Bytes(bytes) => {
                assert_eq!(bytes, payload[pos as usize..pos as usize + 64]);
            }
            other => panic!("expected bytes, got {other:?}"),
        }
        seen += 1;
    }
    assert_eq!(seen, 64);
    assert!(rig.settled.is_empty());
    rig.submit_wait(Op::Close { handle }).unwrap();

    // The same on the runtime: the tasks take turns, a few bytes at a time.
    let mut disk = Disk::new();
    disk.most = 24;
    disk.put("many.bin", &payload);
    let mut rig = TaskRig::new(disk);
    let open = Op::Open { path: PathBuf::from("many.bin"), spec: reading() };
    let handle = match rig.submit_wait(open).unwrap() {
        Reply::Handle { id, .. } => id,
        other => panic!("expected handle, got {other:?}"),
    };
    let mut tasks = Vec::new();
    for i in 0..64u64 {
        let pos = (i % 16) * 64;
        let read = Op::ReadAt { handle, pos, dest: Dest::Alloc { len: 64 } };
        tasks.push((pos, rig.submit(read)));
    }
    assert_eq!(rig.runtime.running.len(), 64);
    let mut seen = 0;
    let mut turns = 0;
    while !tasks.is_empty() {
        turns += 1;
        let mut waiting = Vec::new();
        for (pos, mut task) in tasks.into_iter().rev() {
            match rig.advance(&mut task) {
                None => waiting.push((pos, task)),
                Some(result) => match result.unwrap() {
                    Reply::Bytes(bytes) => {
                        assert_eq!(bytes, payload[pos as usize..pos as usize + 64]);
                        seen += 1;
                    }
                    other => panic!("expected bytes, got {other:?}"),
                },
            }
        }
        tasks = waiting;
    }
    assert_eq!(seen, 64);
    assert_eq!(turns, 4);
    assert!(rig.runtime.running.is_empty());
    rig.submit_wait(Op::Close { handle }).unwrap();
}

#[test]
fn a_closed_handles_id_is_not_given_again() {
    for kind in backends() {
        let mut disk = Disk::new();
        disk.put("a.bin", b"larger than that");
        let mut rig = Rig::new(kind, disk);
        let mut last = 0;
        for round in 0..6 {
            let path = PathBuf::from("a.bin");
            let op = match round % 2 {
                0 => Op::Open { path, spec: reading() },
                _ => Op::ReadFile { path, inline_max: 4 },
            };
            let handle = match rig.submit_wait(op).unwrap() {
                Reply::Handle { id, .. } => id,
                other => panic!("expected handle, got {other:?}"),
            };
            assert!(handle > last, "backend {kind:?}");
            last = handle;
            if round != 2 {
                rig.submit_wait(Op::Close { handle }).unwrap();
            }
        }
        assert_eq!(rig.disk().open_fds(), 1);
    }
}

#[test]
fn every_callback_is_called_once_with_its_own_result() {
    let mut disk = Disk::new();
    disk.most = 5;
    disk.put("a.bin", b"0123456789abcdef");
    let mut rig = AioRig::new(disk, 3);
    let spec = OpenSpec { read: true, write: true, ..OpenSpec::default() };
    let open = Op::Open { path: PathBuf::from("a.bin"), spec };
    let handle = match rig.submit_wait(open).unwrap() {
        Reply::Handle { id, .. } => id,
        other => panic!("expected handle, got {other:?}"),
    };
    let mut asked = Vec::new();
    for i in 0..40u64 {
        let pos = i % 8;
        let op = match i % 5 {
            0 => Op::ReadAt { handle, pos, dest: Dest::Alloc { len: 8 } },
            1 => Op::ReadFile { path: PathBuf::from("a.bin"), inline_max: u64::MAX },
            2 => Op::Size { handle },
            3 => Op::Sync { handle, data_only: false },
            _ => Op::ReadToEnd { handle: handle + 1, pos },
        };
        let (id, cb) = rig.submit(op);
        if i % 7 == 0 {
            rig.front.cancel(id);
        }
        if i % 3 == 0 {
            rig.pass();
        }
        asked.push((i, pos, cb));
    }
    rig.run();
    assert_eq!(rig.settled.len(), asked.len());
    let errno = rig.errno;
    for (i, pos, cb) in asked {
        let result = rig.result(cb).expect("called");
        assert!(rig.result(cb).is_none());
        if i % 7 == 0 && result == Err(cancelled_error(&errno)) {
            continue;
        }
        let at = pos as usize;
        match i % 5 {
            0 => assert_eq!(result, Ok(Reply::Bytes(b"0123456789abcdef"[at..at + 8].to_vec()))),
            1 => assert_eq!(result, Ok(Reply::Bytes(b"0123456789abcdef".to_vec()))),
            2 => assert_eq!(result, Ok(Reply::Size(16))),
            3 => assert_eq!(result, Ok(Reply::Unit)),
            _ => match result {
                Err(Error::Custom { kind: ErrorKind::InvalidInput, .. }) => {}
                other => panic!("expected a bad handle, got {other:?}"),
            },
        }
    }
}

#[test]
fn only_a_handle_takes_a_handle_id() {
    let mut disk = Disk::new();
    disk.put("small.bin", b"small");
    disk.put("large.bin", b"larger than that");
    let mut rig = TaskRig::new(disk);
    let read = |path: &str| Op::ReadFile { path: PathBuf::from(path), inline_max: 8 };
    assert_eq!(rig.submit_wait(read("small.bin")), Ok(Reply::Bytes(b"small".to_vec())));
    assert_eq!(rig.runtime.next_id, 1);
    let open = |path: &str| Op::Open { path: PathBuf::from(path), spec: reading() };
    match rig.submit_wait(open("small.bin")) {
        Ok(Reply::Handle { id: 1, size: 5, .. }) => {}
        other => panic!("expected the first handle, got {other:?}"),
    }
    // An open has its id from the start; what is handed off meanwhile gets
    // the next one.
    let mut slow = rig.submit(open("small.bin"));
    match rig.submit_wait(read("large.bin")) {
        Ok(Reply::Handle { id: 3, size: 16, .. }) => {}
        other => panic!("expected the third handle, got {other:?}"),
    }
    let slow = loop {
        if let Some(result) = rig.advance(&mut slow) {
            break result;
        }
    };
    match slow {
        Ok(Reply::Handle { id: 2, .. }) => {}
        other => panic!("expected the second handle, got {other:?}"),
    }
    let rest = Op::ReadToEnd { handle: 3, pos: 12 };
    assert_eq!(rig.submit_wait(rest), Ok(Reply::Bytes(b"that".to_vec())));
    for handle in [1, 2, 3] {
        assert_eq!(rig.submit_wait(Op::Close { handle }), Ok(Reply::Unit));
    }
    assert_eq!(rig.disk.open_fds(), 0);
}

#[test]
fn a_whole_file_write_leaves_nothing_of_a_longer_file() {
    for kind in backends() {
        let mut disk = Disk::new();
        disk.most = 3;
        disk.put("a.bin", b"what was there before");
        let mut rig = Rig::new(kind, disk);
        let path = PathBuf::from("a.bin");
        let data = Payload::Owned(b"shorter".to_vec());
        let written = rig.submit_wait(Op::WriteFile { path: path.clone(), data });
        assert_eq!(written, Ok(Reply::Written { n: 7, end: 7 }));
        let read = Op::ReadFile { path, inline_max: u64::MAX };
        assert_eq!(rig.submit_wait(read), Ok(Reply::Bytes(b"shorter".to_vec())));
        assert_eq!(rig.disk().open_fds(), 0, "backend {kind:?}");
    }
}

#[test]
fn a_read_into_memory_in_pieces_gives_back_a_write() {
    for kind in backends() {
        let mut disk = Disk::new();
        disk.most = 4;
        disk.put("a.bin", b"0123456789");
        let mut rig = Rig::new(kind, disk);
        let spec = OpenSpec { read: true, write: true, ..OpenSpec::default() };
        let handle = rig.open_handle("a.bin", spec);
        let data = Payload::Owned(b"abcdefghijk".to_vec());
        let write = Op::WriteAt { handle, pos: 5, data, append: false };
        assert_eq!(rig.submit_wait(write), Ok(Reply::Written { n: 11, end: 16 }));
        let dest = Dest::Into { addr: BASE + 2, len: 14 };
        let read = rig.submit_wait(Op::ReadAt { handle, pos: 5, dest });
        assert_eq!(read, Ok(Reply::Read { n: 11 }), "backend {kind:?}");
        assert_eq!(&rig.disk().memory[..16], b"\0\0abcdefghijk\0\0\0");
        rig.submit_wait(Op::Close { handle }).unwrap();
    }
}

#[test]
fn sync_completes() {
    for kind in backends() {
        let mut rig = Rig::new(kind, Disk::new());
        let spec = OpenSpec { write: true, create: true, ..OpenSpec::default() };
        let handle = rig.open_handle("sync.bin", spec);
        rig.submit_wait(Op::WriteAt {
            handle,
            pos: 0,
            data: Payload::Owned(b"durable".to_vec()),
            append: false,
        })
        .unwrap();
        for data_only in [false, true] {
            match rig.submit_wait(Op::Sync { handle, data_only }).unwrap() {
                Reply::Unit => {}
                other => panic!("expected unit, got {other:?}"),
            }
        }
        rig.submit_wait(Op::Close { handle }).unwrap();
    }
}

#[test]
fn read_to_end_from_offset() {
    for kind in backends() {
        let mut disk = Disk::new();
        disk.put("toend.bin", b"0123456789");
        let mut rig = Rig::new(kind, disk);
        let handle = rig.open_handle("toend.bin", reading());
        match rig.submit_wait(Op::ReadToEnd { handle, pos: 4 }).unwrap() {
            Reply::Bytes(bytes) => assert_eq!(bytes, b"456789", "backend {kind:?}"),
            other => panic!("expected bytes, got {other:?}"),
        }
        match rig.submit_wait(Op::ReadToEnd { handle, pos: 20 }).unwrap() {
            Reply::Bytes(bytes) => assert_eq!(bytes, b""),
            other => panic!("expected bytes, got {other:?}"),
        }
        rig.submit_wait(Op::Close { handle }).unwrap();
    }
}

#[test]
fn whole_file_ops_roundtrip() {
    for kind in backends() {
        let payload: Vec<u8> = (0..100_000u32).flat_map(|i| i.to_le_bytes()).collect();
        let mut rig = Rig::new(kind, Disk::new());
        let path = PathBuf::from("whole.bin");
        let write = Op::WriteFile { path: path.clone(), data: Payload::Owned(payload.clone()) };
        match rig.submit_wait(write).unwrap() {
            Reply::Written { n, end } => {
                assert_eq!(n, payload.len());
                assert_eq!(end, payload.len() as u64);
            }
            other => panic!("expected written, got {other:?}"),
        }
        match rig.submit_wait(Op::ReadFile { path, inline_max: u64::MAX }).unwrap() {
            Reply::Bytes(bytes) => assert_eq!(bytes, payload, "backend {kind:?}"),
            other => panic!("expected bytes, got {other:?}"),
        }
        assert_eq!(rig.disk().open_fds(), 0);
    }
}

#[test]
fn missing_file_reports_not_found() {
    for kind in backends() {
        let mut rig = Rig::new(kind, Disk::new());
        let read = Op::ReadFile { path: PathBuf::from("nope.bin"), inline_max: u64::MAX };
        let err = rig.submit_wait(read).unwrap_err();
        assert_eq!(err, Error::Os(libc::ENOENT), "backend {kind:?}");
    }
}

#[test]
fn ops_on_closed_handle_fail() {
    for kind in backends() {
        let mut disk = Disk::new();
        disk.put("closed.bin", b"x");
        let mut rig = Rig::new(kind, disk);
        let handle = rig.open_handle("closed.bin", reading());
        rig.submit_wait(Op::Close { handle }).unwrap();
        let read = Op::ReadAt { handle, pos: 0, dest: Dest::Alloc { len: 1 } };
        match rig.submit_wait(read).unwrap_err() {
            Error::Custom { kind, message } => {
                assert_eq!(kind, ErrorKind::InvalidInput);
                assert_eq!(message, "unknown or closed turbofile handle");
            }
            other => panic!("expected a bad handle, got {other:?}"),
        }
        assert!(rig.submit_wait(Op::Close { handle }).is_err());
        assert!(rig.submit_wait(Op::Size { handle }).is_err());
        assert!(rig.submit_wait(Op::SetLen { handle, size: 1 }).is_err());
        assert!(rig.submit_wait(Op::Sync { handle, data_only: false }).is_err());
        assert!(rig.submit_wait(Op::ReadToEnd { handle, pos: 0 }).is_err());
    }
}

#[test]
fn zero_length_ops_complete() {
    for kind in backends() {
        let mut disk = Disk::new();
        disk.put("zero.bin", b"content");
        let mut rig = Rig::new(kind, disk);
        let spec = OpenSpec { read: true, write: true, ..OpenSpec::default() };
        let handle = rig.open_handle("zero.bin", spec);
        let read = Op::ReadAt { handle, pos: 0, dest: Dest::Alloc { len: 0 } };
        match rig.submit_wait(read).unwrap() {
            Reply::Bytes(bytes) => assert_eq!(bytes, b""),
            other => panic!("expected bytes, got {other:?}"),
        }
        let read = Op::ReadAt { handle, pos: 0, dest: Dest::Into { addr: BASE, len: 0 } };
        assert_eq!(rig.submit_wait(read), Ok(Reply::Read { n: 0 }));
        let write = Op::WriteAt {
            handle,
            pos: 3,
            data: Payload::Owned(Vec::new()),
            append: false,
        };
        match rig.submit_wait(write).unwrap() {
            Reply::Written { n, end } => {
                assert_eq!(n, 0);
                assert_eq!(end, 3, "backend {kind:?}");
            }
            other => panic!("expected written, got {other:?}"),
        }
        let append = Op::WriteAt {
            handle,
            pos: 3,
            data: Payload::Owned(Vec::new()),
            append: true,
        };
        assert_eq!(rig.submit_wait(append), Ok(Reply::Written { n: 0, end: 7 }));
        rig.submit_wait(Op::Close { handle }).unwrap();
    }
}

#[test]
fn read_file_hands_off_files_above_inline_max() {
    for kind in backends() {
        let payload: Vec<u8> = (0..16384u32).map(|i| (i % 251) as u8).collect();
        let mut disk = Disk::new();
        disk.put("handoff.bin", &payload);
        let mut rig = Rig::new(kind, disk);
        let path = PathBuf::from("handoff.bin");

        // At the threshold the whole read stays one submission.
        let read = Op::ReadFile { path: path.clone(), inline_max: payload.len() as u64 };
        match rig.submit_wait(read).unwrap() {
            Reply::Bytes(bytes) => assert_eq!(bytes, payload, "backend {kind:?}"),
            other => panic!("expected bytes, got {other:?}"),
        }

        // Above it the caller gets an open read handle to fill and close.
        let read = Op::ReadFile { path, inline_max: payload.len() as u64 - 1 };
        let (handle, size) = match rig.submit_wait(read).unwrap() {
            Reply::Handle { id, size, .. } => (id, size),
            other => panic!("expected handle, got {other:?} on {kind:?}"),
        };
        assert_eq!(size, payload.len() as u64);
        let read = Op::ReadAt { handle, pos: 0, dest: Dest::Alloc { len: payload.len() } };
        match rig.submit_wait(read).unwrap() {
            Reply::Bytes(bytes) => assert_eq!(bytes, payload, "backend {kind:?}"),
            other => panic!("expected bytes, got {other:?}"),
        }
        match rig.submit_wait(Op::Close { handle }).unwrap() {
            Reply::Unit => {}
            other => panic!("expected unit, got {other:?}"),
        }
        assert_eq!(rig.disk().open_fds(), 0);
    }
}

#[test]
fn read_to_end_stops_at_the_reported_size() {
    let payload: Vec<u8> = (0..4096u32).map(|i| (i % 253) as u8).collect();
    let mut disk = Disk::new();
    disk.put("exact.bin", &payload);
    let mut rig = AioRig::new(disk, 16);
    let path = PathBuf::from("exact.bin");
    match rig.submit_wait(Op::ReadFile { path: path.clone(), inline_max: u64::MAX }).unwrap() {
        Reply::Bytes(bytes) => {
            assert_eq!(bytes, payload);
            assert_eq!(bytes.capacity(), payload.len());
        }
        other => panic!("expected bytes, got {other:?}"),
    }
    let handle = match rig.submit_wait(Op::Open { path, spec: reading() }).unwrap() {
        Reply::Handle { id, .. } => id,
        other => panic!("expected handle, got {other:?}"),
    };
    match rig.submit_wait(Op::ReadToEnd { handle, pos: 1000 }).unwrap() {
        Reply::Bytes(bytes) => {
            assert_eq!(bytes, payload[1000..]);
            assert_eq!(bytes.capacity(), payload.len() - 1000);
        }
        other => panic!("expected bytes, got {other:?}"),
    }
    rig.submit_wait(Op::Close { handle }).unwrap();
}

#[test]
fn a_read_beside_a_slow_op_is_noticed_within_the_wait_cap() {
    let mut disk = Disk::new();
    disk.put("big.bin", &[3u8; 4096]);
    disk.put("small.bin", &[5u8; 4096]);
    let mut rig = AioRig::new(disk, 16);
    let big = Op::ReadFile { path: PathBuf::from("big.bin"), inline_max: u64::MAX };
    let (_, big) = rig.submit(big);
    rig.completes = false;
    rig.pass();
    assert_eq!(rig.port.driver.suspend_ns, SUSPEND_MIN_NS);
    for _ in 0..3 {
        rig.pass();
    }
    // The wait has backed off as far as it goes.
    assert_eq!(rig.port.driver.suspend_ns, SUSPEND_MAX_NS);
    assert!(rig.port.driver.suspend_ns < 800_000);
    let small = Op::ReadFile { path: PathBuf::from("small.bin"), inline_max: u64::MAX };
    let (_, small) = rig.submit(small);
    rig.pass();
    assert_eq!(rig.port.driver.suspend_ns, SUSPEND_MIN_NS);
    assert_eq!(rig.flying.len(), 2);
    rig.completes = true;
    rig.run();
    assert_eq!(rig.result(small), Some(Ok(Reply::Bytes(vec![5u8; 4096]))));
    assert_eq!(rig.result(big), Some(Ok(Reply::Bytes(vec![3u8; 4096]))));
}

#[test]
fn opens_that_block_do_not_hold_up_other_reads() {
    let payload = vec![7u8; 4096];
    let mut disk = Disk::new();
    disk.put("fifo", b"x");
    for i in 0..8 {
        disk.put(&format!("r{i}.bin"), &payload);
    }
    let mut rig = AioRig::new(disk, 16);
    rig.stuck.push(PathBuf::from("fifo"));
    let read = |path: &str| Op::ReadFile { path: PathBuf::from(path), inline_max: u64::MAX };
    rig.submit_wait(read("r0.bin")).unwrap();
    assert_eq!(rig.opens_here, 1);

    let mut regular = Vec::new();
    let mut fifo = 0;
    for i in 0..16 {
        if i == 8 {
            fifo = rig.submit(read("fifo")).1;
        }
        regular.push(rig.submit(read(&format!("r{}.bin", i % 8))).1);
    }
    rig.run();
    assert!(rig.opens_away > 0);
    for cb in regular {
        assert_eq!(rig.result(cb), Some(Ok(Reply::Bytes(payload.clone()))));
    }
    assert_eq!(rig.result(fifo), None);
    rig.let_go();
    rig.run();
    assert_eq!(rig.result(fifo), Some(Ok(Reply::Bytes(b"x".to_vec()))));
    assert_eq!(rig.disk.open_fds(), 0);
}

#[test]
fn a_burst_of_whole_file_ops_settles_each_one() {
    let small = vec![9u8; 2048];
    let large = vec![4u8; 1 << 16];
    let mut disk = Disk::new();
    for i in 0..24 {
        disk.put(&format!("s{i}.bin"), &small);
    }
    disk.put("large.bin", &large);
    let mut rig = AioRig::new(disk, 16);

    let mut out = Vec::new();
    for i in 0..24 {
        let path = PathBuf::from(format!("s{i}.bin"));
        out.push(("small", rig.submit(Op::ReadFile { path, inline_max: u64::MAX }).1));
        match i {
            6 => {
                let path = PathBuf::from("absent.bin");
                out.push(("missing", rig.submit(Op::ReadFile { path, inline_max: u64::MAX }).1));
            }
            12 => {
                let path = PathBuf::from("large.bin");
                out.push(("handle", rig.submit(Op::ReadFile { path, inline_max: 4096 }).1));
            }
            18 => {
                let path = PathBuf::from("written.bin");
                let data = Payload::Owned(large.clone());
                out.push(("written", rig.submit(Op::WriteFile { path, data }).1));
            }
            _ => {}
        }
    }
    rig.run();

    let mut smalls = 0;
    let mut seen = Vec::new();
    for (tag, cb) in out {
        match (tag, rig.result(cb).expect("settled")) {
            ("small", Ok(Reply::Bytes(bytes))) => {
                assert_eq!(bytes, small);
                smalls += 1;
            }
            ("missing", Err(e)) => {
                assert_eq!(e, Error::Os(libc::ENOENT));
                seen.push(tag);
            }
            ("handle", Ok(Reply::Handle { id, size, .. })) => {
                assert_eq!(size, large.len() as u64);
                match rig.submit_wait(Op::ReadToEnd { handle: id, pos: 0 }).unwrap() {
                    Reply::Bytes(bytes) => assert_eq!(bytes, large),
                    other => panic!("expected bytes, got {other:?}"),
                }
                rig.submit_wait(Op::Close { handle: id }).unwrap();
                seen.push(tag);
            }
            ("written", Ok(Reply::Written { n, end })) => {
                assert_eq!((n, end), (large.len(), large.len() as u64));
                assert_eq!(rig.disk.content("written.bin"), large);
                seen.push(tag);
            }
            (tag, other) => panic!("{tag}: unexpected result {other:?}"),
        }
    }
    assert_eq!(smalls, 24);
    seen.sort();
    assert_eq!(seen, ["handle", "missing", "written"]);
    assert_eq!(rig.disk.open_fds(), 0);
}

#[test]
fn a_cancel_during_a_blocked_open_settles_cancelled() {
    let mut disk = Disk::new();
    disk.put("fifo", b"x");
    for i in 0..8 {
        disk.put(&format!("r{i}.bin"), &[1u8; 512]);
    }
    let mut rig = AioRig::new(disk, 16);
    rig.stuck.push(PathBuf::from("fifo"));
    let read = |path: &str| Op::ReadFile { path: PathBuf::from(path), inline_max: u64::MAX };
    rig.submit_wait(read("r0.bin")).unwrap();
    let mut regular = Vec::new();
    for i in 0..8 {
        regular.push(rig.submit(read(&format!("r{i}.bin"))).1);
    }
    let (fifo_id, fifo) = rig.submit(read("fifo"));
    rig.submit(read("r0.bin"));
    rig.run();
    for cb in regular {
        assert_eq!(rig.result(cb), Some(Ok(Reply::Bytes(vec![1u8; 512]))));
    }
    rig.front.cancel(fifo_id);
    rig.run();
    assert_eq!(rig.result(fifo), None);
    rig.let_go();
    rig.run();
    match rig.result(fifo) {
        Some(Err(e)) if is_cancelled(&e, &rig.errno) => {}
        other => panic!("expected ECANCELED, got {other:?}"),
    }
    assert_eq!(rig.disk.open_fds(), 0);
}

#[test]
fn a_queued_op_settles_cancelled_at_once() {
    let mut disk = Disk::new();
    disk.put("a.bin", &[1u8; 64]);
    let mut rig = AioRig::new(disk, 1);
    let open = Op::Open { path: PathBuf::from("a.bin"), spec: reading() };
    let handle = match rig.submit_wait(open).unwrap() {
        Reply::Handle { id, .. } => id,
        other => panic!("expected handle, got {other:?}"),
    };
    rig.completes = false;
    let read = || Op::ReadAt { handle, pos: 0, dest: Dest::Alloc { len: 64 } };
    let (first_id, first) = rig.submit(read());
    let (second_id, second) = rig.submit(read());
    rig.pass();
    assert_eq!(rig.flying.len(), 1);
    rig.front.cancel(second_id);
    rig.pass();
    assert_eq!(rig.result(second), Some(Err(cancelled_error(&rig.errno))));
    // The one in flight settles once the kernel is done with it.
    rig.front.cancel(first_id);
    rig.port.take_msg().map(|msg| rig.handle(msg));
    assert_eq!(rig.result(first), None);
    rig.pass();
    assert_eq!(rig.result(first), Some(Err(Error::Os(libc::ECANCELED))));
    rig.front.cancel(999);
    rig.pass();
    assert!(rig.settled.is_empty());
}

#[test]
fn a_cancelled_op_that_completes_keeps_its_result() {
    let mut disk = Disk::new();
    disk.put("a.bin", b"0123456789");
    disk.most = 4;
    let mut rig = AioRig::new(disk, 4);
    let open = Op::Open { path: PathBuf::from("a.bin"), spec: reading() };
    let handle = match rig.submit_wait(open).unwrap() {
        Reply::Handle { id, .. } => id,
        other => panic!("expected handle, got {other:?}"),
    };
    // Three chunks are needed: a mark after the first stops the second.
    let (id, cb) = rig.submit(Op::ReadAt { handle, pos: 0, dest: Dest::Alloc { len: 10 } });
    rig.completes = false;
    rig.pass();
    rig.front.cancel(id);
    rig.port.take_msg().map(|msg| rig.handle(msg));
    rig.flying[0].aborted = false;
    rig.completes = true;
    rig.pass();
    assert_eq!(rig.result(cb), Some(Err(Error::Os(libc::ECANCELED))));
    // One chunk is all of it: the op won the race.
    let (id, cb) = rig.submit(Op::ReadAt { handle, pos: 2, dest: Dest::Alloc { len: 4 } });
    rig.completes = false;
    rig.pass();
    rig.front.cancel(id);
    rig.port.take_msg().map(|msg| rig.handle(msg));
    rig.flying[0].aborted = false;
    rig.completes = true;
    rig.pass();
    assert_eq!(rig.result(cb), Some(Ok(Reply::Bytes(b"2345".to_vec()))));
}

#[test]
fn transfers_go_on_chunk_by_chunk() {
    for kind in backends() {
        let content: Vec<u8> = (0..200u8).collect();
        let mut disk = Disk::new();
        disk.most = 7;
        disk.put("a.bin", &content);
        let mut rig = Rig::new(kind, disk);
        let spec = OpenSpec { read: true, write: true, ..OpenSpec::default() };
        let handle = rig.open_handle("a.bin", spec);
        let read = Op::ReadAt { handle, pos: 10, dest: Dest::Alloc { len: 100 } };
        assert_eq!(rig.submit_wait(read), Ok(Reply::Bytes(content[10..110].to_vec())));
        let read = Op::ReadAt { handle, pos: 150, dest: Dest::Alloc { len: 100 } };
        assert_eq!(rig.submit_wait(read), Ok(Reply::Bytes(content[150..].to_vec())));
        let write = Op::WriteAt {
            handle,
            pos: 190,
            data: Payload::Owned(vec![9; 30]),
            append: false,
        };
        assert_eq!(rig.submit_wait(write), Ok(Reply::Written { n: 30, end: 220 }));
        let mut expected = content[..190].to_vec();
        expected.extend_from_slice(&[9; 30]);
        assert_eq!(rig.disk().content("a.bin"), expected);
        assert_eq!(rig.submit_wait(Op::Size { handle }), Ok(Reply::Size(220)));
        assert_eq!(rig.submit_wait(Op::SetLen { handle, size: 5 }), Ok(Reply::Unit));
        assert_eq!(rig.submit_wait(Op::Size { handle }), Ok(Reply::Size(5)));
        assert_eq!(rig.submit_wait(Op::Nop), Ok(Reply::Unit));
    }
}

#[test]
fn a_close_waits_for_the_jobs_on_its_handle() {
    let mut disk = Disk::new();
    disk.put("a.bin", b"abc");
    let mut rig = AioRig::new(disk, 4);
    let open = Op::Open { path: PathBuf::from("a.bin"), spec: reading() };
    let handle = match rig.submit_wait(open).unwrap() {
        Reply::Handle { id, .. } => id,
        other => panic!("expected handle, got {other:?}"),
    };
    rig.completes = false;
    let read = || Op::ReadAt { handle, pos: 0, dest: Dest::Alloc { len: 3 } };
    let (_, first) = rig.submit(read());
    let (_, second) = rig.submit(read());
    let (_, close) = rig.submit(Op::Close { handle });
    let (_, late) = rig.submit(read());
    let (_, again) = rig.submit(Op::Close { handle });
    rig.pass();
    assert_eq!(rig.disk.open_fds(), 1);
    assert_eq!(rig.result(close), None);
    assert!(matches!(rig.result(late), Some(Err(Error::Custom { .. }))));
    assert!(matches!(rig.result(again), Some(Err(Error::Custom { .. }))));
    rig.completes = true;
    rig.pass();
    assert_eq!(rig.result(first), Some(Ok(Reply::Bytes(b"abc".to_vec()))));
    assert_eq!(rig.result(second), Some(Ok(Reply::Bytes(b"abc".to_vec()))));
    assert_eq!(rig.result(close), Some(Ok(Reply::Unit)));
    assert_eq!(rig.disk.open_fds(), 0);
}

#[test]
fn a_full_kernel_queue_runs_the_job_here() {
    let mut disk = Disk::new();
    disk.most = 3;
    disk.put("a.bin", b"0123456789");
    let mut rig = AioRig::new(disk, 4);
    rig.full = true;
    let path = PathBuf::from("a.bin");
    let read = Op::ReadFile { path: path.clone(), inline_max: u64::MAX };
    assert_eq!(rig.submit_wait(read), Ok(Reply::Bytes(b"0123456789".to_vec())));
    let write = Op::WriteFile { path: path.clone(), data: Payload::Owned(b"new".to_vec()) };
    assert_eq!(rig.submit_wait(write), Ok(Reply::Written { n: 3, end: 3 }));
    let spec = OpenSpec { append: true, ..OpenSpec::default() };
    let handle = match rig.submit_wait(Op::Open { path, spec }).unwrap() {
        Reply::Handle { id, .. } => id,
        other => panic!("expected handle, got {other:?}"),
    };
    let append = Op::WriteAt {
        handle,
        pos: 0,
        data: Payload::Owned(b"-tail".to_vec()),
        append: true,
    };
    assert_eq!(rig.submit_wait(append), Ok(Reply::Written { n: 5, end: 8 }));
    assert_eq!(rig.submit_wait(Op::Sync { handle, data_only: true }), Ok(Reply::Unit));
    assert_eq!(rig.disk.content("a.bin"), b"new-tail");
    assert!(rig.flying.is_empty());
}

#[test]
fn a_full_kernel_queue_with_requests_of_ours_keeps_the_job() {
    let mut disk = Disk::new();
    disk.put("a.bin", b"0123456789");
    let mut rig = AioRig::new(disk, 4);
    let open = Op::Open { path: PathBuf::from("a.bin"), spec: reading() };
    let handle = match rig.submit_wait(open).unwrap() {
        Reply::Handle { id, .. } => id,
        other => panic!("expected handle, got {other:?}"),
    };
    let read = |pos| Op::ReadAt { handle, pos, dest: Dest::Alloc { len: 2 } };
    rig.completes = false;
    let (_, first) = rig.submit(read(0));
    rig.pass();
    rig.full = true;
    let (_, second) = rig.submit(read(4));
    rig.pass();
    assert_eq!(rig.port.driver.queue.len(), 1);
    rig.full = false;
    rig.completes = true;
    rig.run();
    assert_eq!(rig.result(first), Some(Ok(Reply::Bytes(b"01".to_vec()))));
    assert_eq!(rig.result(second), Some(Ok(Reply::Bytes(b"45".to_vec()))));
}

#[test]
fn a_failed_request_settles_with_its_error() {
    let mut disk = Disk::new();
    disk.put("a.bin", b"abc");
    let mut rig = AioRig::new(disk, 4);
    let read = Op::ReadFile { path: PathBuf::from("a.bin"), inline_max: u64::MAX };
    let (_, cb) = rig.submit(read);
    rig.completes = false;
    rig.pass();
    let chunk = Chunk { n: 0, bytes: Vec::new(), stat: Err(Error::Os(libc::EIO)) };
    match rig.port.driver.reap(0, libc::EIO, chunk, false) {
        AfterReap::Finished(finish) => {
            rig.flying.clear();
            rig.finish(finish);
        }
        _ => panic!("expected the end of the job"),
    }
    assert_eq!(rig.result(cb), Some(Err(Error::Os(libc::EIO))));
    assert_eq!(rig.disk.open_fds(), 0);
}

#[test]
fn a_driver_without_submitters_exits_when_nothing_is_left() {
    let mut disk = Disk::new();
    disk.put("fifo", b"x");
    disk.put("a.bin", b"a");
    let mut rig = AioRig::new(disk, 4);
    rig.stuck.push(PathBuf::from("fifo"));
    let read = |path: &str| Op::ReadFile { path: PathBuf::from(path), inline_max: u64::MAX };
    let (_, fifo) = rig.submit(read("fifo"));
    rig.submit(read("a.bin"));
    rig.run();
    assert_eq!(rig.port.driver.wait(), Wait::Either);
    let (other, _rx) = unbounded();
    rig.front = Driver::new(other, aio_label());
    assert!(rig.port.take_msg().is_none());
    assert_eq!(rig.port.driver.wait(), Wait::Opened);
    rig.let_go();
    rig.run_to_exit();
    assert_eq!(rig.result(fifo), Some(Ok(Reply::Bytes(b"x".to_vec()))));
    assert_eq!(rig.port.driver.wait(), Wait::Exit);
}

impl<'a> AioRig<'a> {
    fn run_to_exit(&mut self) {
        while self.port.driver.wait() != Wait::Exit {
            self.pass();
        }
    }
}

#[test]
fn without_helpers_opens_run_here() {
    let mut disk = Disk::new();
    disk.put("a.bin", b"a");
    let mut rig = AioRig::new(disk, 4);
    let (back_tx, _back_rx) = unbounded();
    rig.back_tx = back_tx;
    let (_unused_tx, helper_rx) = unbounded();
    rig.helper_rx = helper_rx;
    let read = || Op::ReadFile { path: PathBuf::from("a.bin"), inline_max: u64::MAX };
    let (_, first) = rig.submit(read());
    let (_, second) = rig.submit(read());
    rig.run();
    assert_eq!(rig.opens_away, 1);
    assert_eq!(rig.result(first), Some(Ok(Reply::Bytes(b"a".to_vec()))));
    assert_eq!(rig.result(second), Some(Ok(Reply::Bytes(b"a".to_vec()))));
    assert_eq!(rig.port.driver.wait(), Wait::Submission);
}

#[test]
fn an_op_without_a_driver_thread_settles_broken_pipe() {
    let (tx, mut rx) = unbounded();
    let mut front: Driver<usize> = Driver::new(tx, aio_label());
    let (first, unsent) = front.submit(Op::Nop, 5);
    assert_eq!(first, 1);
    assert!(unsent.is_none());
    match rx.try_recv() {
        Polled::Item(Msg::Submit { id: 1, op: Op::Nop, cb: 5 }) => {}
        other => panic!("expected the submission, got {other:?}"),
    }
    assert!(matches!(rx.try_recv(), Polled::Empty));
    front.cancel(first);
    assert!(!rx.is_empty());
    assert!(matches!(rx.try_recv(), Polled::Item(Msg::Cancel { id: 1 })));
    drop(rx);
    let (second, unsent) = front.submit(Op::Nop, 6);
    assert_eq!(second, 2);
    let unsent = unsent.expect("comes back");
    assert_eq!(unsent.cb, 6);
    match unsent.result {
        Err(Error::Custom { kind: ErrorKind::BrokenPipe, message }) => {
            assert_eq!(message, "turbofile driver thread is gone");
        }
        other => panic!("expected a broken pipe, got {other:?}"),
    }
    front.cancel(second);
}

#[test]
fn a_port_hands_over_what_it_takes() {
    let mut rig = AioRig::new(Disk::new(), 4);
    assert!(!rig.port.unread());
    assert!(rig.port.take_msg().is_none());
    let (id, cb) = rig.submit(Op::Nop);
    rig.front.cancel(id);
    assert!(rig.port.unread());
    match rig.port.take_msg() {
        Some(Msg::Submit { id: taken, op: Op::Nop, cb: back }) => {
            assert_eq!((taken, back), (id, cb));
        }
        other => panic!("expected the submission, got {other:?}"),
    }
    match rig.port.take_msg() {
        Some(Msg::Cancel { id: taken }) => assert_eq!(taken, id),
        other => panic!("expected the cancellation, got {other:?}"),
    }
    assert!(!rig.port.unread());
    assert!(rig.port.take_msg().is_none());
    assert!(rig.port.take_opened().is_none());
    assert_eq!(rig.port.driver.wait(), Wait::Either);
}

#[test]
fn a_helper_without_a_driver_settles_the_op() {
    let mut disk = Disk::new();
    disk.put("a.bin", b"a");
    let mut rig = AioRig::new(disk, 4);
    rig.stuck.push(PathBuf::from("a.bin"));
    rig.submit(Op::ReadFile { path: PathBuf::from("a.bin"), inline_max: 1 });
    let (_, cb) = rig.submit(Op::ReadFile { path: PathBuf::from("a.bin"), inline_max: 1 });
    rig.run();
    let (tx, rx) = unbounded();
    drop(rx);
    rig.back_tx = tx;
    rig.let_go();
    match rig.result(cb).or_else(|| rig.result(cb - 1)) {
        Some(Err(Error::Custom { kind: ErrorKind::BrokenPipe, .. })) => {}
        other => panic!("expected a broken pipe, got {other:?}"),
    }
    assert_eq!(rig.disk.open_fds(), 0);
}

#[test]
fn a_disconnected_channel_says_so() {
    let (mut tx, mut rx) = unbounded::<u8>();
    let mut other = tx.another();
    assert_eq!(tx.send(7), Ok(()));
    drop(tx);
    assert_eq!(other.send(8), Ok(()));
    assert_eq!(rx.try_recv(), Polled::Item(7));
    assert_eq!(rx.try_recv(), Polled::Item(8));
    assert_eq!(rx.try_recv(), Polled::Empty);
    drop(other);
    assert_eq!(rx.try_recv(), Polled::Disconnected);
    let (mut tx, rx) = unbounded::<u8>();
    drop(rx);
    assert_eq!(tx.send(9), Err(9));
}

#[test]
fn a_cancelled_task_stops_before_its_next_chunk() {
    let mut disk = Disk::new();
    disk.most = 4;
    disk.put("a.bin", b"0123456789");
    let mut rig = TaskRig::new(disk);
    let open = Op::Open { path: PathBuf::from("a.bin"), spec: reading() };
    let handle = match rig.submit_wait(open).unwrap() {
        Reply::Handle { id, .. } => id,
        other => panic!("expected handle, got {other:?}"),
    };
    let read = |len| Op::ReadAt { handle, pos: 0, dest: Dest::Alloc { len } };
    rig.cancel_after = Some(1);
    assert_eq!(rig.submit_wait(read(10)), Err(cancelled_error(&rig.errno)));
    assert_eq!(rig.submit_wait(read(4)), Ok(Reply::Bytes(b"0123".to_vec())));
    // An op that was cancelled before it started settles so at once.
    rig.cancel_after = Some(0);
    assert_eq!(rig.submit_wait(read(4)), Err(cancelled_error(&rig.errno)));
    let whole = Op::ReadFile { path: PathBuf::from("a.bin"), inline_max: u64::MAX };
    assert_eq!(rig.submit_wait(whole), Err(cancelled_error(&rig.errno)));
    assert_eq!(rig.submit_wait(Op::Close { handle }), Err(cancelled_error(&rig.errno)));
    rig.cancel_after = None;
    assert_eq!(rig.submit_wait(Op::Close { handle }), Ok(Reply::Unit));
    assert_eq!(rig.disk.open_fds(), 0);
}

#[test]
fn handles_count_up_and_are_not_reused() {
    for kind in backends() {
        let mut disk = Disk::new();
        disk.put("a.bin", b"a");
        let mut rig = Rig::new(kind, disk);
        let first = rig.open_handle("a.bin", reading());
        rig.submit_wait(Op::Close { handle: first }).unwrap();
        let second = rig.open_handle("a.bin", reading());
        assert_eq!((first, second), (1, 2));
    }
}

#[test]
fn the_default_backend_follows_the_platform() {
    assert_eq!(BackendKind::default_for_platform(Platform::MacOs), BackendKind::DarwinAio);
    assert_eq!(BackendKind::default_for_platform(Platform::Linux), BackendKind::Compio);
    assert_eq!(BackendKind::default_for_platform(Platform::Other), BackendKind::Compio);
    let name = |s: &str| Some(s.to_string());
    assert_eq!(BackendKind::configured(None, Platform::MacOs), Ok(BackendKind::DarwinAio));
    for s in ["aio", "darwin-aio"] {
        assert_eq!(BackendKind::configured(name(s), Platform::MacOs), Ok(BackendKind::DarwinAio));
        assert_eq!(BackendKind::configured(name(s), Platform::Linux), Err(s.to_string()));
    }
    assert_eq!(BackendKind::configured(name("compio"), Platform::Linux), Ok(BackendKind::Compio));
    assert_eq!(BackendKind::configured(name("x"), Platform::MacOs), Err("x".to_string()));
}

#[test]
fn a_lost_runtime_thread_is_an_error() {
    assert_eq!(started(Some(Err(Error::Os(12)))), Err(Error::Os(12)));
    match started(None) {
        Err(Error::Custom { kind: ErrorKind::BrokenPipe, message }) => {
            assert_eq!(message, "compio driver thread exited during startup");
        }
        other => panic!("expected a broken pipe, got {other:?}"),
    }
}
