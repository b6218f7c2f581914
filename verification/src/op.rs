//! Operations, their payloads and destinations, and their replies.

use std::path::PathBuf;

use vstd::prelude::*;

use crate::error::Error;
use crate::host::Platform;

verus! {

/// `std::path::PathBuf`, carried from an operation to the call that opens it.
/// Nothing is said of what a path holds.
#[verifier::external_type_specification]
#[verifier::external_body]
pub struct ExPathBuf(PathBuf);

/// The mechanism that performs operations.
#[derive(Debug, Clone, Copy, PartialEq, Eq, Structural)]
pub enum BackendKind {
    Compio,
    DarwinAio,
}

impl BackendKind {
    /// The backend used when none is asked for: POSIX AIO on macOS, compio
    /// everywhere else.
    pub fn default_for_platform(platform: Platform) -> (kind: BackendKind)
        ensures
            kind == (if platform == Platform::MacOs {
                BackendKind::DarwinAio
            } else {
                BackendKind::Compio
            }),
    {
        match platform {
            Platform::MacOs => BackendKind::DarwinAio,
            Platform::Linux | Platform::Other => BackendKind::Compio,
        }
    }

    /// The backend that the configured name `value` asks for on `platform`:
    /// the default when nothing is configured, `None` for a name that the
    /// platform has no backend of.
    pub open spec fn configured_spec(value: Option<Seq<char>>, platform: Platform) -> Option<
        BackendKind,
    > {
        match value {
            None => Some(
                if platform == Platform::MacOs {
                    BackendKind::DarwinAio
                } else {
                    BackendKind::Compio
                },
            ),
            Some(name) => if name == "compio"@ {
                Some(BackendKind::Compio)
            } else if platform == Platform::MacOs && (name == "aio"@ || name == "darwin-aio"@) {
                Some(BackendKind::DarwinAio)
            } else {
                None
            },
        }
    }

    /// A name that is configured is obeyed or refused, never replaced: one
    /// backend has the same name everywhere, the other has two names and is
    /// there on macOS alone. Without a name macOS gets that one, and every
    /// other platform the first.
    pub proof fn a_name_is_obeyed_or_refused(name: Seq<char>, platform: Platform)
        ensures
            BackendKind::configured_spec(Some("compio"@), platform) == Some(BackendKind::Compio),
            BackendKind::configured_spec(Some(name), platform) == Some(BackendKind::Compio) ==> name
                == "compio"@,
            BackendKind::configured_spec(Some(name), platform) == Some(BackendKind::DarwinAio)
                <==> platform is MacOs && (name == "aio"@ || name == "darwin-aio"@),
            BackendKind::configured_spec(None, platform) is Some,
            BackendKind::configured_spec(None, platform) == Some(BackendKind::DarwinAio)
                <==> platform is MacOs,
    {
        reveal_strlit("compio");
        reveal_strlit("aio");
        reveal_strlit("darwin-aio");
        assert("compio"@.len() == 6);
        assert("aio"@.len() == 3);
        assert("darwin-aio"@.len() == 10);
    }

    /// The backend to use, given the configured name if there is one. The
    /// error hands back the name that no backend has.
    pub fn configured(value: Option<String>, platform: Platform) -> (kind: Result<
        BackendKind,
        String,
    >)
        ensures
            match value {
                None => kind == Ok::<BackendKind, String>(
                    BackendKind::configured_spec(None, platform)->0,
                ),
                Some(name) => match BackendKind::configured_spec(Some(name@), platform) {
                    Some(k) => kind == Ok::<BackendKind, String>(k),
                    None => kind == Err::<BackendKind, String>(name),
                },
            },
    {
        match value {
            None => Ok(BackendKind::default_for_platform(platform)),
            Some(name) => {
                if name.eq(&"compio".to_owned()) {
                    return Ok(BackendKind::Compio);
                }
                match platform {
                    Platform::MacOs => {
                        if name.eq(&"aio".to_owned()) || name.eq(&"darwin-aio".to_owned()) {
                            return Ok(BackendKind::DarwinAio);
                        }
                    },
                    Platform::Linux | Platform::Other => {},
                }
                Err(name)
            },
        }
    }
}

/// How a file is opened.
#[derive(Debug, Clone, Copy, PartialEq, Eq, Structural)]
pub struct OpenSpec {
    pub read: bool,
    pub write: bool,
    pub append: bool,
    pub truncate: bool,
    pub create: bool,
    pub create_new: bool,
}

impl OpenSpec {
    /// Nothing asked for.
    pub open spec fn none() -> OpenSpec {
        OpenSpec {
            read: false,
            write: false,
            append: false,
            truncate: false,
            create: false,
            create_new: false,
        }
    }
}

impl Default for OpenSpec {
    fn default() -> (spec: OpenSpec)
        ensures
            spec == OpenSpec::none(),
    {
        OpenSpec {
            read: false,
            write: false,
            append: false,
            truncate: false,
            create: false,
            create_new: false,
        }
    }
}

/// Bytes to write. `Borrowed` stays valid until the op has settled.
#[derive(Debug)]
pub enum Payload<'a> {
    Owned(Vec<u8>),
    Borrowed(&'a [u8]),
}

/// The bytes themselves, wherever they are kept.
impl<'a> View for Payload<'a> {
    type V = Seq<u8>;

    open spec fn view(&self) -> Seq<u8> {
        match self {
            Payload::Owned(data) => data@,
            Payload::Borrowed(data) => data@,
        }
    }
}

impl<'a> Payload<'a> {
    pub fn as_slice(&self) -> (bytes: &[u8])
        ensures
            bytes@ == self@,
    {
        match self {
            Payload::Owned(data) => data.as_slice(),
            Payload::Borrowed(data) => *data,
        }
    }

    pub fn len(&self) -> (n: usize)
        ensures
            n == self@.len(),
    {
        self.as_slice().len()
    }

    pub fn is_empty(&self) -> (empty: bool)
        ensures
            empty == (self@.len() == 0),
    {
        self.len() == 0
    }
}

/// The options of an open that asks for nothing open nothing, make nothing and
/// cut nothing.
pub proof fn nothing_is_asked_by_default()
    ensures
        ({
            let s = OpenSpec::none();
            !(s.read || s.write || s.append || s.truncate || s.create || s.create_new)
        }),
{
}

/// A payload is no longer than a length can say.
pub proof fn payloads_fit<'a>(data: Payload<'a>)
    ensures
        data@.len() <= usize::MAX,
{
    match data {
        Payload::Owned(bytes) => assert(bytes@.len() == bytes.len()),
        Payload::Borrowed(bytes) => assert(bytes@.len() == bytes.len()),
    }
}

/// Where read bytes go. `Into` is the address and length of caller-owned
/// memory that stays valid until the op has settled; a read into it replies
/// [`Reply::Read`], one into `Alloc` replies [`Reply::Bytes`].
#[derive(Debug, Clone, Copy, PartialEq, Eq, Structural)]
pub enum Dest {
    Alloc { len: usize },
    Into { addr: usize, len: usize },
}

impl Dest {
    /// The memory that `Into` names lies inside the address space.
    pub open spec fn wf(self) -> bool {
        match self {
            Dest::Alloc { .. } => true,
            Dest::Into { addr, len } => addr + len <= usize::MAX,
        }
    }

    /// How many bytes the destination has room for.
    pub open spec fn len(self) -> usize {
        match self {
            Dest::Alloc { len } => len,
            Dest::Into { len, .. } => len,
        }
    }
}

#[derive(Debug)]
pub enum Op<'a> {
    Open { path: PathBuf, spec: OpenSpec },
    ReadAt { handle: u64, pos: u64, dest: Dest },
    ReadToEnd { handle: u64, pos: u64 },
    WriteAt { handle: u64, pos: u64, data: Payload<'a>, append: bool },
    Close { handle: u64 },
    Sync { handle: u64, data_only: bool },
    SetLen { handle: u64, size: u64 },
    Size { handle: u64 },
    /// Open, read and close in one submission when the file is at most
    /// `inline_max` bytes. A larger file comes back as an open read handle
    /// ([`Reply::Handle`]) instead, so the caller can fill its own buffer with
    /// a parallel read and close it.
    ReadFile { path: PathBuf, inline_max: u64 },
    WriteFile { path: PathBuf, data: Payload<'a> },
    /// No kernel work and no file-table access: a round trip through the
    /// driver alone.
    Nop,
}

impl<'a> Op<'a> {
    /// The memory that the operation reads into lies in the address space.
    pub open spec fn wf(self) -> bool {
        self matches Op::ReadAt { dest, .. } ==> dest.wf()
    }

    /// Whether the memory that the operation reads into lies in the address
    /// space.
    pub fn fits(&self) -> (yes: bool)
        ensures
            yes == self.wf(),
    {
        match self {
            Op::ReadAt { dest: Dest::Into { addr, len }, .. } => *len <= usize::MAX - *addr,
            _ => true,
        }
    }

    /// The handle that the operation works on.
    pub open spec fn handle(self) -> Option<u64> {
        match self {
            Op::ReadAt { handle, .. } => Some(handle),
            Op::ReadToEnd { handle, .. } => Some(handle),
            Op::WriteAt { handle, .. } => Some(handle),
            Op::Close { handle } => Some(handle),
            Op::Sync { handle, .. } => Some(handle),
            Op::SetLen { handle, .. } => Some(handle),
            Op::Size { handle } => Some(handle),
            Op::Open { .. } | Op::ReadFile { .. } | Op::WriteFile { .. } | Op::Nop => None,
        }
    }
}

/// An operation on an open file works on the handle that it names; one that
/// opens a path itself, or has nothing to do, works on none.
pub proof fn an_operation_works_on_the_handle_it_names<'a>(op: Op<'a>)
    ensures
        match op {
            Op::ReadAt { handle, .. } => op.handle() == Some(handle),
            Op::ReadToEnd { handle, .. } => op.handle() == Some(handle),
            Op::WriteAt { handle, .. } => op.handle() == Some(handle),
            Op::Close { handle } => op.handle() == Some(handle),
            Op::Sync { handle, .. } => op.handle() == Some(handle),
            Op::SetLen { handle, .. } => op.handle() == Some(handle),
            Op::Size { handle } => op.handle() == Some(handle),
            Op::Open { .. } | Op::ReadFile { .. } | Op::WriteFile { .. } | Op::Nop => op.handle()
                is None,
        },
        op.wf() <==> (op matches Op::ReadAt { dest: Dest::Into { addr, len }, .. } ==> addr + len
            <= usize::MAX),
{
}

/// A message to a driver: an operation with what to call back, or the request
/// to abort one.
#[derive(Debug)]
pub enum Msg<'a, C> {
    Submit { id: u64, op: Op<'a>, cb: C },
    Cancel { id: u64 },
}

#[derive(Debug, PartialEq, Eq)]
pub enum Reply {
    Handle { id: u64, size: u64, fd: i64 },
    Bytes(Vec<u8>),
    Read { n: usize },
    Written { n: usize, end: u64 },
    Size(u64),
    Unit,
}

/// [`Reply`] with the bytes as a sequence.
pub enum ReplyView {
    Handle { id: u64, size: u64, fd: i64 },
    Bytes(Seq<u8>),
    Read { n: usize },
    Written { n: usize, end: u64 },
    Size(u64),
    Unit,
}

impl View for Reply {
    type V = ReplyView;

    open spec fn view(&self) -> ReplyView {
        match self {
            Reply::Handle { id, size, fd } => ReplyView::Handle { id: *id, size: *size, fd: *fd },
            Reply::Bytes(data) => ReplyView::Bytes(data@),
            Reply::Read { n } => ReplyView::Read { n: *n },
            Reply::Written { n, end } => ReplyView::Written { n: *n, end: *end },
            Reply::Size(size) => ReplyView::Size(*size),
            Reply::Unit => ReplyView::Unit,
        }
    }
}

/// What an operation settles with, the reply taken by its view.
pub open spec fn outcome(result: Result<Reply, Error>) -> Result<ReplyView, Error> {
    match result {
        Ok(reply) => Ok(reply@),
        Err(e) => Err(e),
    }
}

} // verus!
