//! The framed wire protocol: command codes, the release/data-version gate,
//! and the byte-stream abstraction both endpoints speak over.

use vstd::prelude::*;

verus! {

use vstd::utf8::encode_utf8;
use crate::codec::spec_enc_bytes;

/// A coarse compatibility class; two builds understand each other's
/// serialized inventory exactly when their releases map to the same data
/// version.
#[derive(Clone, Copy, PartialEq, Eq, Structural, Debug)]
pub struct DataVersion(pub u8);

/// A three-part version number identifying the protocol build.
#[derive(Clone, Copy, PartialEq, Eq, Structural, Debug)]
pub struct Release(pub u8, pub u8, pub u8);

/// The release this build speaks.
pub open spec fn spec_current_release() -> Release {
    Release(0, 0, 1)
}

/// The data version a release maps to; a release that maps to none is
/// incompatible with everything.
pub open spec fn spec_data_version(r: Release) -> Option<DataVersion> {
    if r == Release(0, 0, 1) || r == Release(0, 0, 2) {
        Some(DataVersion(0))
    } else {
        None
    }
}

/// Whether a peer speaking `r` shares this build's data version. A release
/// mapped to no data version is never compatible.
pub open spec fn spec_compatible(r: Release) -> bool {
    spec_data_version(r) is Some && spec_data_version(r) == spec_data_version(
        spec_current_release(),
    )
}

impl Release {
    /// The release this build speaks.
    pub fn current() -> (r: Release)
        ensures
            r == spec_current_release(),
    {
        Release(0, 0, 1)
    }

    /// The three bytes this release puts on the wire.
    pub fn as_bytes(self) -> (r: [u8; 3])
        ensures
            r@ == seq![self.0, self.1, self.2],
    {
        let r = [self.0, self.1, self.2];
        proof {
            assert(r@ =~= seq![self.0, self.1, self.2]);
        }
        r
    }

    /// The release three wire bytes spell.
    pub fn from_bytes(bytes: [u8; 3]) -> (r: Release)
        ensures
            r == Release(bytes@[0], bytes@[1], bytes@[2]),
    {
        Release(bytes[0], bytes[1], bytes[2])
    }

    /// The data version this release maps to.
    pub fn data_version(self) -> (r: Option<DataVersion>)
        ensures
            r == spec_data_version(self),
    {
        if self == Release(0, 0, 1) || self == Release(0, 0, 2) {
            Some(DataVersion(0))
        } else {
            None
        }
    }

    /// Whether a peer speaking this release shares this build's data version.
    pub fn compatible(self) -> (r: bool)
        ensures
            r == spec_compatible(self),
    {
        self == Release(0, 0, 1) || self == Release(0, 0, 2)
    }
}

/// The one-byte command codes of the wire protocol.
#[derive(Clone, Copy, PartialEq, Eq, Structural, Debug)]
pub enum CmdCode {
    GetRelease,
    GetInv,
    InsertItem,
    RemoveItem,
    GetServerClients,
    CreateServerBackup,
    ConnectionSuccessfull,
    OperationSuccessfull,
    CmdResponseRecieved,
}

/// The byte a command code puts on the wire.
pub open spec fn spec_code_byte(c: CmdCode) -> u8 {
    match c {
        CmdCode::GetRelease => 0,
        CmdCode::GetInv => 2,
        CmdCode::InsertItem => 3,
        CmdCode::RemoveItem => 4,
        CmdCode::GetServerClients => 5,
        CmdCode::CreateServerBackup => 6,
        CmdCode::ConnectionSuccessfull => 10,
        CmdCode::OperationSuccessfull => 11,
        CmdCode::CmdResponseRecieved => 12,
    }
}

/// The command code a wire byte spells, if any.
pub open spec fn spec_code_of(v: u8) -> Option<CmdCode> {
    match v {
        0 => Some(CmdCode::GetRelease),
        2 => Some(CmdCode::GetInv),
        3 => Some(CmdCode::InsertItem),
        4 => Some(CmdCode::RemoveItem),
        5 => Some(CmdCode::GetServerClients),
        6 => Some(CmdCode::CreateServerBackup),
        10 => Some(CmdCode::ConnectionSuccessfull),
        11 => Some(CmdCode::OperationSuccessfull),
        12 => Some(CmdCode::CmdResponseRecieved),
        _ => None,
    }
}

impl CmdCode {
    /// The byte this code puts on the wire.
    pub fn as_u8(self) -> (r: u8)
        ensures
            r == spec_code_byte(self),
            spec_code_of(r) == Some(self),
    {
        match self {
            CmdCode::GetRelease => 0,
            CmdCode::GetInv => 2,
            CmdCode::InsertItem => 3,
            CmdCode::RemoveItem => 4,
            CmdCode::GetServerClients => 5,
            CmdCode::CreateServerBackup => 6,
            CmdCode::ConnectionSuccessfull => 10,
            CmdCode::OperationSuccessfull => 11,
            CmdCode::CmdResponseRecieved => 12,
        }
    }

    /// The command code a wire byte spells; any other byte value is a framing
    /// error.
    pub fn from_u8(v: u8) -> (r: Option<CmdCode>)
        ensures
            r == spec_code_of(v),
            r matches Some(c) ==> spec_code_byte(c) == v,
    {
        match v {
            0 => Some(CmdCode::GetRelease),
            2 => Some(CmdCode::GetInv),
            3 => Some(CmdCode::InsertItem),
            4 => Some(CmdCode::RemoveItem),
            5 => Some(CmdCode::GetServerClients),
            6 => Some(CmdCode::CreateServerBackup),
            10 => Some(CmdCode::ConnectionSuccessfull),
            11 => Some(CmdCode::OperationSuccessfull),
            12 => Some(CmdCode::CmdResponseRecieved),
            _ => None,
        }
    }
}

/// Why a transport operation failed, mirroring the error kinds the endpoints
/// tell apart.
#[derive(Clone, Copy, PartialEq, Eq, Structural, Debug)]
pub enum IoErr {
    /// The peer closed the stream.
    Closed,
    /// A bounded read or connect ran out of time.
    TimedOut,
    /// A non-blocking read found nothing pending.
    WouldBlock,
    /// A specific code was expected and some other byte arrived.
    UnexpectedCode,
    /// A payload did not decode.
    InvalidData,
    /// Any other transport failure.
    Other,
}

/// What the client-side sync machinery reports upward.
#[derive(Clone, Copy, PartialEq, Eq, Structural, Debug)]
pub enum ServerErr {
    TimedOut,
    OtherIo(IoErr),
    IncompatibleRelease(Release),
}

/// What a non-blocking one-byte poll of a stream found.
#[derive(Clone, Copy, PartialEq, Eq, Structural, Debug)]
pub enum PollOutcome {
    /// Zero bytes: the peer closed the stream.
    Closed,
    /// One pending byte, consumed.
    Byte(u8),
    /// Nothing pending right now.
    WouldBlock,
    /// The stream failed.
    Failed,
}

/// An ordered, reliable, bidirectional byte stream, as the protocol endpoints
/// see it: what has been received and not yet read (`inbuf`), and what has
/// been written (`outbuf`). Callers implement it over a real socket; the
/// in-memory [`MemStream`] implements it for tests and loopback use.
pub trait Transport: Sized {
    /// Bytes received from the peer and not yet consumed. The default model
    /// is the empty stream; a verified endpoint overrides it.
    open spec fn inbuf(&self) -> Seq<u8> {
        Seq::empty()
    }

    /// Bytes handed to the transport for the peer so far. The default model
    /// is the empty stream; a verified endpoint overrides it.
    open spec fn outbuf(&self) -> Seq<u8> {
        Seq::empty()
    }

    /// Blocking read of exactly `n` bytes. A read, failed or not, never
    /// writes.
    fn read_exact(&mut self, n: usize) -> (r: Result<Vec<u8>, IoErr>)
        ensures
            match r {
                Ok(bytes) => old(self).inbuf().len() >= n && bytes@ == old(self).inbuf().take(
                    n as int,
                ) && final(self).inbuf() == old(self).inbuf().skip(n as int)
                    && final(self).outbuf() == old(self).outbuf(),
                Err(_) => final(self).outbuf() == old(self).outbuf(),
            },
    ;

    /// Blocking write of the whole buffer.
    fn write_all(&mut self, bytes: &[u8]) -> (r: Result<(), IoErr>)
        ensures
            match r {
                Ok(_) => final(self).outbuf() == old(self).outbuf() + bytes@ && final(self).inbuf()
                    == old(self).inbuf(),
                Err(_) => true,
            },
    ;

    /// Non-blocking probe for one pending byte. Nothing pending — whether
    /// the peer is still there or has closed — means nothing received and
    /// unread; only a stream failure may hide pending bytes.
    fn poll_byte(&mut self) -> (r: PollOutcome)
        ensures
            match r {
                PollOutcome::Byte(b) => old(self).inbuf().len() > 0 && b == old(self).inbuf()[0]
                    && final(self).inbuf() == old(self).inbuf().skip(1) && final(self).outbuf()
                    == old(self).outbuf(),
                PollOutcome::Closed | PollOutcome::WouldBlock => old(self).inbuf().len() == 0
                    && final(self).inbuf() == old(self).inbuf()
                    && final(self).outbuf() == old(self).outbuf(),
                PollOutcome::Failed => final(self).inbuf() == old(self).inbuf()
                    && final(self).outbuf() == old(self).outbuf(),
            },
    ;
}

/// An in-memory stream endpoint: reads consume a supplied input buffer,
/// writes accumulate in an output buffer. One end of a loopback pair.
pub struct MemStream {
    input: Vec<u8>,
    read_pos: usize,
    output: Vec<u8>,
    peer_closed: bool,
}

impl MemStream {
    #[verifier::type_invariant]
    spec fn wf(self) -> bool {
        self.read_pos <= self.input@.len()
    }

    /// An endpoint with nothing received yet.
    pub fn new() -> (r: MemStream)
        ensures
            r.inbuf() == Seq::<u8>::empty(),
            r.outbuf() == Seq::<u8>::empty(),
    {
        let r = MemStream { input: Vec::new(), read_pos: 0, output: Vec::new(), peer_closed: false };
        proof {
            assert(r.inbuf() =~= Seq::<u8>::empty());
        }
        r
    }

    /// Hands the endpoint more received bytes.
    pub fn feed(&mut self, bytes: &[u8])
        ensures
            final(self).inbuf() == old(self).inbuf() + bytes@,
            final(self).outbuf() == old(self).outbuf(),
    {
        proof {
            use_type_invariant(&*self);
        }
        let pos = self.read_pos;
        self.read_pos = 0;
        let mut input: Vec<u8> = Vec::new();
        core::mem::swap(&mut input, &mut self.input);
        let mut fresh: Vec<u8> = Vec::new();
        let mut i: usize = pos;
        while i < input.len()
            invariant
                pos <= i <= input@.len(),
                fresh@ == input@.subrange(pos as int, i as int),
            decreases input@.len() - i,
        {
            fresh.push(input[i]);
            proof {
                assert(fresh@ =~= input@.subrange(pos as int, i as int + 1));
            }
            i = i + 1;
        }
        fresh.extend_from_slice(bytes);
        self.input = fresh;
        proof {
            assert(final(self).inbuf() =~= old(self).inbuf() + bytes@);
        }
    }

    /// Takes everything written so far.
    pub fn take_output(&mut self) -> (r: Vec<u8>)
        ensures
            r@ == old(self).outbuf(),
            final(self).outbuf() == Seq::<u8>::empty(),
            final(self).inbuf() == old(self).inbuf(),
    {
        proof {
            use_type_invariant(&*self);
        }
        let mut out: Vec<u8> = Vec::new();
        core::mem::swap(&mut out, &mut self.output);
        out
    }

    /// Marks the peer as having closed its end.
    pub fn close_peer(&mut self)
        ensures
            final(self).inbuf() == old(self).inbuf(),
            final(self).outbuf() == old(self).outbuf(),
    {
        proof {
            use_type_invariant(&*self);
        }
        self.peer_closed = true;
    }
}

impl Transport for MemStream {
    closed spec fn inbuf(&self) -> Seq<u8> {
        self.input@.skip(self.read_pos as int)
    }

    closed spec fn outbuf(&self) -> Seq<u8> {
        self.output@
    }

    fn read_exact(&mut self, n: usize) -> (r: Result<Vec<u8>, IoErr>) {
        proof {
            use_type_invariant(&*self);
        }
        if n > self.input.len() - self.read_pos {
            return Err(IoErr::TimedOut);
        }
        let end: usize = self.read_pos + n;
        let mut out: Vec<u8> = Vec::new();
        let mut i: usize = 0;
        while i < n
            invariant
                i <= n,
                end == self.read_pos + n,
                self.read_pos + n <= self.input@.len(),
                out@ == self.input@.subrange(self.read_pos as int, self.read_pos as int + i as int),
                self == old(self),
            decreases n - i,
        {
            out.push(self.input[self.read_pos + i]);
            proof {
                assert(out@ =~= self.input@.subrange(
                    self.read_pos as int,
                    self.read_pos as int + i as int + 1,
                ));
            }
            i = i + 1;
        }
        self.read_pos = self.read_pos + n;
        proof {
            assert(out@ =~= old(self).inbuf().take(n as int));
            assert(final(self).inbuf() =~= old(self).inbuf().skip(n as int));
        }
        Ok(out)
    }

    fn write_all(&mut self, bytes: &[u8]) -> (r: Result<(), IoErr>) {
        proof {
            use_type_invariant(&*self);
        }
        let mut output: Vec<u8> = Vec::new();
        core::mem::swap(&mut output, &mut self.output);
        output.extend_from_slice(bytes);
        self.output = output;
        Ok(())
    }

    fn poll_byte(&mut self) -> (r: PollOutcome) {
        proof {
            use_type_invariant(&*self);
        }
        if self.read_pos < self.input.len() {
            let b = self.input[self.read_pos];
            self.read_pos = self.read_pos + 1;
            proof {
                assert(old(self).inbuf()[0] == b);
                assert(final(self).inbuf() =~= old(self).inbuf().skip(1));
            }
            PollOutcome::Byte(b)
        } else if self.peer_closed {
            PollOutcome::Closed
        } else {
            PollOutcome::WouldBlock
        }
    }
}

/// Writes one command code byte to the stream.
pub fn send_code<T: Transport>(io: &mut T, code: CmdCode) -> (r: Result<(), IoErr>)
    ensures
        match r {
            Ok(_) => final(io).outbuf() == old(io).outbuf() + seq![spec_code_byte(code)]
                && final(io).inbuf() == old(io).inbuf(),
            Err(_) => true,
        },
{
    let buf: [u8; 1] = [code.as_u8()];
    proof {
        assert(buf@ =~= seq![spec_code_byte(code)]);
    }
    io.write_all(buf.as_slice())
}

/// Reads one byte and demands that it is the given command code; any other
/// byte value is a framing error.
pub fn expect_code<T: Transport>(io: &mut T, code: CmdCode) -> (r: Result<(), IoErr>)
    ensures
        match r {
            Ok(_) => old(io).inbuf().len() >= 1 && old(io).inbuf()[0] == spec_code_byte(code)
                && final(io).inbuf() == old(io).inbuf().skip(1)
                && final(io).outbuf() == old(io).outbuf(),
            Err(_) => true,
        },
{
    let buf = match io.read_exact(1) {
        Ok(b) => b,
        Err(e) => {
            return Err(e);
        },
    };
    if buf[0] != code.as_u8() {
        return Err(IoErr::UnexpectedCode);
    }
    Ok(())
}

/// The bytes a client opens a connection with: its release triple, then its
/// length-prefixed UTF-8 name.
pub open spec fn spec_handshake(release: Release, name: Seq<char>) -> Seq<u8> {
    seq![release.0, release.1, release.2] + spec_enc_bytes(encode_utf8(name))
}

} // verus!
