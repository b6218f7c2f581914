//! How a file is opened: the flags, the size that an open reports, and what
//! happens to a descriptor that cannot be used.

use vstd::prelude::*;

use crate::effect::AfterOpen;
use crate::error::{Error, ErrorKind};
use crate::host::OpenBits;
use crate::job::{fd_size, reported_size, Stat};
use crate::op::OpenSpec;

verus! {

/// The permissions a new file is created with, before the umask: read and
/// write for everyone.
pub const OPEN_MODE: u32 = 0o666;

/// The error for a path that C cannot take.
pub open spec fn nul_in_path_spec() -> Error {
    Error::Custom { kind: ErrorKind::InvalidInput, message: "path contains NUL" }
}

/// The error for an open that asks for neither reading nor writing.
pub open spec fn no_access_spec() -> Error {
    Error::Custom { kind: ErrorKind::InvalidInput, message: "open needs read or write access" }
}

/// A path that C cannot take, and an open that asks for neither reading nor
/// writing, are invalid input, told apart from each other. A new file is for
/// everyone to read and to write, before the umask, and for nobody to execute.
pub proof fn a_refused_open_is_invalid_input()
    ensures
        nul_in_path_spec() matches Error::Custom { kind, message } && kind is InvalidInput
            && message@ == "path contains NUL"@,
        no_access_spec() matches Error::Custom { kind, message } && kind is InvalidInput && message@
            == "open needs read or write access"@,
        nul_in_path_spec() != no_access_spec(),
        OPEN_MODE == 6 * 64 + 6 * 8 + 6,
{
    reveal_strlit("path contains NUL");
    reveal_strlit("open needs read or write access");
    assert("path contains NUL"@.len() != "open needs read or write access"@.len());
}

/// `bits` if they are asked for, and none if not.
pub open spec fn bits_if(asked: bool, bits: i32) -> i32 {
    if asked {
        bits
    } else {
        0
    }
}

/// The access mode of an open: appending writes.
pub open spec fn access_bits(spec: OpenSpec, bits: OpenBits) -> i32 {
    match (spec.read, spec.write || spec.append) {
        (true, true) => bits.read_write,
        (true, false) => bits.read_only,
        _ => bits.write_only,
    }
}

/// The flags of an open: the access mode and close-on-exec, and each of the
/// others that is asked for. A new file is also created.
pub open spec fn flag_bits(spec: OpenSpec, bits: OpenBits) -> i32 {
    access_bits(spec, bits) | bits.cloexec | bits_if(spec.append, bits.append) | bits_if(
        spec.truncate,
        bits.truncate,
    ) | bits_if(spec.create, bits.create) | bits_if(
        spec.create_new,
        bits.create | bits.exclusive,
    )
}

/// Nothing added leaves flags as they are.
proof fn lemma_no_bits(flags: i32)
    ensures
        flags | 0 == flags,
{
    assert(flags | 0 == flags) by (bit_vector);
}

/// Whether the path holds a NUL byte.
pub fn holds_nul(path: &[u8]) -> (yes: bool)
    ensures
        yes == path@.contains(0),
{
    let mut i: usize = 0;
    while i < path.len()
        invariant
            0 <= i <= path@.len(),
            forall|k: int| 0 <= k < i ==> path@[k] != 0,
        decreases path@.len() - i,
    {
        if path[i] == 0 {
            assert(path@[i as int] == 0);
            return true;
        }
        i = i + 1;
    }
    false
}

/// The flags to open `path` with, or why it cannot be opened that way.
pub fn open_flags(path: &[u8], spec: &OpenSpec, bits: &OpenBits) -> (flags: Result<i32, Error>)
    ensures
        flags == (if path@.contains(0) {
            Err(nul_in_path_spec())
        } else if !(spec.read || spec.write || spec.append) {
            Err(no_access_spec())
        } else {
            Ok(flag_bits(*spec, *bits))
        }),
{
    if holds_nul(path) {
        return Err(
            Error::Custom { kind: ErrorKind::InvalidInput, message: "path contains NUL" },
        );
    }
    let writes: bool = spec.write || spec.append;
    let access: i32 = if spec.read && writes {
        bits.read_write
    } else if spec.read {
        bits.read_only
    } else if writes {
        bits.write_only
    } else {
        return Err(
            Error::Custom {
                kind: ErrorKind::InvalidInput,
                message: "open needs read or write access",
            },
        );
    };
    let mut flags: i32 = access | bits.cloexec;
    proof {
        lemma_no_bits(flags);
    }
    if spec.append {
        flags = flags | bits.append;
    }
    proof {
        lemma_no_bits(flags);
    }
    if spec.truncate {
        flags = flags | bits.truncate;
    }
    proof {
        lemma_no_bits(flags);
    }
    if spec.create {
        flags = flags | bits.create;
    }
    proof {
        lemma_no_bits(flags);
    }
    if spec.create_new {
        flags = flags | (bits.create | bits.exclusive);
    }
    Ok(flags)
}

/// Every flag that an open asks for is set, whatever numbers the flags have.
pub proof fn asked_flags_are_set(spec: OpenSpec, bits: OpenBits)
    ensures
        ({
            let flags = flag_bits(spec, bits);
            &&& flags & bits.cloexec == bits.cloexec
            &&& spec.append ==> flags & bits.append == bits.append
            &&& spec.truncate ==> flags & bits.truncate == bits.truncate
            &&& spec.create ==> flags & bits.create == bits.create
            &&& spec.create_new ==> flags & (bits.create | bits.exclusive) == (bits.create
                | bits.exclusive)
        }),
{
    let access = access_bits(spec, bits);
    let a = bits.cloexec;
    let b = bits_if(spec.append, bits.append);
    let c = bits_if(spec.truncate, bits.truncate);
    let d = bits_if(spec.create, bits.create);
    let e = bits_if(spec.create_new, bits.create | bits.exclusive);
    assert({
        let flags = access | a | b | c | d | e;
        &&& flags & a == a
        &&& flags & b == b
        &&& flags & c == c
        &&& flags & d == d
        &&& flags & e == e
    }) by (bit_vector);
}

/// No flag is set that an open does not ask for, where the platform's flags can
/// be told apart: the flags say which access was asked for, and which of the
/// rest. Only a new file is created exclusively.
pub proof fn only_asked_flags_are_set(spec: OpenSpec, bits: OpenBits)
    requires
        bits.wf(),
    ensures
        ({
            let flags = flag_bits(spec, bits);
            &&& flags & bits.access() == access_bits(spec, bits)
            &&& flags & bits.append != 0 <==> spec.append
            &&& flags & bits.truncate != 0 <==> spec.truncate
            &&& flags & bits.create != 0 <==> spec.create || spec.create_new
            &&& flags & bits.exclusive != 0 <==> spec.create_new
        }),
{
    let (ro, wo, rw) = (bits.read_only, bits.write_only, bits.read_write);
    let (cloexec, append, truncate) = (bits.cloexec, bits.append, bits.truncate);
    let (create, exclusive) = (bits.create, bits.exclusive);
    let access = access_bits(spec, bits);
    let b = bits_if(spec.append, append);
    let c = bits_if(spec.truncate, truncate);
    let d = bits_if(spec.create, create);
    let e = bits_if(spec.create_new, create | exclusive);
    assert({
        let flags = access | cloexec | b | c | d | e;
        &&& flags & (ro | wo | rw) == access
        &&& flags & append == b
        &&& flags & truncate == c
        &&& flags & create == if d == 0 && e == 0 {
            0
        } else {
            create
        }
        &&& flags & exclusive == if e == 0 {
            0
        } else {
            exclusive
        }
        &&& create != 0 ==> create | exclusive != 0
    }) by (bit_vector)
        requires
            access == ro || access == wo || access == rw,
            b == 0 || b == append,
            c == 0 || c == truncate,
            d == 0 || d == create,
            e == 0 || e == create | exclusive,
            cloexec & (ro | wo | rw) == 0,
            append & (ro | wo | rw | cloexec) == 0,
            truncate & (ro | wo | rw | cloexec | append) == 0,
            create & (ro | wo | rw | cloexec | append | truncate) == 0,
            exclusive & (ro | wo | rw | cloexec | append | truncate | create) == 0,
    ;
}

/// The access mode says what was asked for: reading and writing where both
/// were, and one alone where the other was not. Appending is writing.
pub proof fn the_access_mode_is_what_was_asked(spec: OpenSpec, bits: OpenBits)
    requires
        bits.wf(),
        spec.read || spec.write || spec.append,
    ensures
        ({
            let mode = flag_bits(spec, bits) & bits.access();
            &&& spec.read <==> mode == bits.read_only || mode == bits.read_write
            &&& spec.write || spec.append <==> mode == bits.write_only || mode == bits.read_write
        }),
{
    only_asked_flags_are_set(spec, bits);
}

/// The asynchronous runtime opens a file just as the flags do: for reading and
/// writing alike, cut alike, made alike. Only an append brings a flag of its
/// own.
pub proof fn both_backends_open_alike(spec: OpenSpec, bits: OpenBits, append_flag: Option<i32>)
    requires
        bits.wf(),
        spec.read || spec.write || spec.append,
    ensures
        ({
            let flags = flag_bits(spec, bits);
            let mode = flags & bits.access();
            let options = runtime_open(spec, append_flag);
            &&& options.read <==> mode == bits.read_only || mode == bits.read_write
            &&& options.write <==> mode == bits.write_only || mode == bits.read_write
            &&& options.truncate <==> flags & bits.truncate != 0
            &&& options.create || options.create_new <==> flags & bits.create != 0
            &&& options.create_new <==> flags & bits.exclusive != 0
            &&& options.create <==> spec.create
            &&& flags & bits.append != 0 ==> options.custom_flags == append_flag
            &&& flags & bits.append == 0 ==> options.custom_flags is None
        }),
{
    only_asked_flags_are_set(spec, bits);
    the_access_mode_is_what_was_asked(spec, bits);
}

/// What to do after the `open` call.
#[derive(Debug, Clone, Copy, PartialEq, Eq)]
pub enum AfterCall {
    /// Nothing: this is how the open ended.
    Done(Result<(i32, u64), Error>),
    /// Ask for the size of the descriptor and report by [`sized`].
    Size(i32),
}

/// What to do after the `open` call came back.
pub open spec fn after_call<'a>(goal: AfterOpen<'a>, result: Result<i32, Error>) -> AfterCall {
    match result {
        Err(e) => AfterCall::Done(Err(e)),
        Ok(fd) => if goal is WriteFile {
            AfterCall::Done(Ok((fd, 0)))
        } else {
            AfterCall::Size(fd)
        },
    }
}

/// The `open` call came back. A write to a fresh file has no size worth
/// asking for.
pub fn called<'a>(goal: &AfterOpen<'a>, result: Result<i32, Error>) -> (after: AfterCall)
    ensures
        after == (match result {
            Err(e) => AfterCall::Done(Err(e)),
            Ok(fd) => if *goal is WriteFile {
                AfterCall::Done(Ok((fd, 0)))
            } else {
                AfterCall::Size(fd)
            },
        }),
        after == after_call(*goal, result),
{
    match result {
        Err(e) => AfterCall::Done(Err(e)),
        Ok(fd) => match goal {
            AfterOpen::WriteFile { .. } => AfterCall::Done(Ok((fd, 0))),
            AfterOpen::Handle | AfterOpen::ReadFile { .. } => AfterCall::Size(fd),
        },
    }
}

/// How an open with a size ended, and the descriptor to close if it cannot be
/// used.
#[derive(Debug, Clone, Copy, PartialEq, Eq)]
pub struct SizedOpen {
    pub result: Result<(i32, u64), Error>,
    pub close: Option<i32>,
}

/// How the open of `fd` ended with what `fstat` says of it.
pub open spec fn sized_open(fd: i32, stat: Result<Stat, Error>) -> SizedOpen {
    match reported_size(stat) {
        Ok(size) => SizedOpen { result: Ok((fd, size)), close: None },
        Err(e) => SizedOpen { result: Err(e), close: Some(fd) },
    }
}

/// The open of `fd` with what `fstat` says of it: the descriptor is closed
/// again if its size cannot be read.
pub fn sized(fd: i32, stat: &Result<Stat, Error>) -> (open: SizedOpen)
    ensures
        match reported_size(*stat) {
            Ok(size) => open == (SizedOpen { result: Ok((fd, size)), close: None }),
            Err(e) => open == (SizedOpen { result: Err(e), close: Some(fd) }),
        },
        open == sized_open(fd, *stat),
        // The descriptor is passed on or closed, never both and never neither.
        (open.close == Some(fd)) != (open.result matches Ok((f, _)) && f == fd),
{
    match fd_size(stat) {
        Ok(size) => SizedOpen { result: Ok((fd, size)), close: None },
        Err(e) => SizedOpen { result: Err(e), close: Some(fd) },
    }
}

/// The options that the asynchronous runtime opens a file with.
#[derive(Debug, Clone, Copy, PartialEq, Eq, Structural)]
pub struct RuntimeOpen {
    pub read: bool,
    pub write: bool,
    pub truncate: bool,
    pub create: bool,
    pub create_new: bool,
    /// Flags that the runtime has no option of its own for.
    pub custom_flags: Option<i32>,
}

/// The runtime's options for `spec`.
pub open spec fn runtime_open(spec: OpenSpec, append_flag: Option<i32>) -> RuntimeOpen {
    RuntimeOpen {
        read: spec.read,
        write: spec.write || spec.append,
        truncate: spec.truncate,
        create: spec.create,
        create_new: spec.create_new,
        custom_flags: if spec.append {
            append_flag
        } else {
            None
        },
    }
}

/// The runtime's options for `spec`. Appending writes, and where the platform
/// has the flag for it, `append_flag`, every write goes to the end.
pub fn open_options(spec: &OpenSpec, append_flag: Option<i32>) -> (options: RuntimeOpen)
    ensures
        options == (RuntimeOpen {
            read: spec.read,
            write: spec.write || spec.append,
            truncate: spec.truncate,
            create: spec.create,
            create_new: spec.create_new,
            custom_flags: if spec.append {
                append_flag
            } else {
                None
            },
        }),
        options == runtime_open(*spec, append_flag),
{
    RuntimeOpen {
        read: spec.read,
        write: spec.write || spec.append,
        truncate: spec.truncate,
        create: spec.create,
        create_new: spec.create_new,
        custom_flags: if spec.append {
            append_flag
        } else {
            None
        },
    }
}

} // verus!
