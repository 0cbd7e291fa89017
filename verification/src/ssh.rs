//! The way through a SOCKS5 proxy.
//!
//! The proxy is greeted, then asked for a connection to a host by name. The exchange says what is to
//! be sent and how much is to be read; what was read is handed back to it.
use vstd::prelude::*;
use vstd::string::StringSliceAdditionalSpecFns;
use vstd::utf8::encode_utf8;
use crate::wire::{be_bytes, write_be_u16};

verus! {

/// The version of the protocol.
pub const SOCKS5_VERSION: u8 = 0x05;

/// Why the proxy gives no connection.
#[derive(Debug, Clone, Copy, PartialEq, Eq, Structural)]
pub enum Socks5Error {
    /// The proxy does not take the greeting.
    HandshakeFailed,
    /// The proxy refuses the connection.
    ConnectFailed,
    /// The proxy gives an address of a kind that there is not.
    InvalidAddressType,
}

impl Socks5Error {
    /// What is said of the error.
    pub open spec fn text(self) -> Seq<char> {
        match self {
            Socks5Error::HandshakeFailed => "SOCKS5 handshake failed"@,
            Socks5Error::ConnectFailed => "SOCKS5 CONNECT failed"@,
            Socks5Error::InvalidAddressType => "Invalid SOCKS5 response ATYP"@,
        }
    }

    /// What is said of the error.
    pub fn message(&self) -> (s: &'static str)
        ensures
            s@ == self.text(),
    {
        match self {
            Socks5Error::HandshakeFailed => "SOCKS5 handshake failed",
            Socks5Error::ConnectFailed => "SOCKS5 CONNECT failed",
            Socks5Error::InvalidAddressType => "Invalid SOCKS5 response ATYP",
        }
    }
}

/// What is to be read next.
#[derive(Debug, Clone, Copy, PartialEq, Eq, Structural)]
pub enum Socks5Stage {
    /// The answer to the greeting.
    Greeting,
    /// The head of the answer to the request.
    Reply,
    /// The length of a host name.
    NameLength,
    /// An address and a port, so many bytes together.
    Address(usize),
    /// Nothing: the connection is there.
    Connected,
    /// Nothing: there is no connection.
    Failed(Socks5Error),
}

impl Socks5Stage {
    /// How many bytes are to be read.
    pub open spec fn bytes(self) -> nat {
        match self {
            Socks5Stage::Greeting => 2,
            Socks5Stage::Reply => 4,
            Socks5Stage::NameLength => 1,
            Socks5Stage::Address(n) => n as nat,
            _ => 0,
        }
    }

    /// How many bytes are to be read.
    pub fn to_read(&self) -> (n: usize)
        ensures
            n == self.bytes(),
    {
        match *self {
            Socks5Stage::Greeting => 2,
            Socks5Stage::Reply => 4,
            Socks5Stage::NameLength => 1,
            Socks5Stage::Address(n) => n,
            _ => 0,
        }
    }

    /// The exchange is over.
    pub open spec fn is_over(self) -> bool {
        self is Connected || self is Failed
    }
}

/// What comes after the bytes that were read.
pub open spec fn next_stage(stage: Socks5Stage, read: Seq<u8>) -> Socks5Stage {
    match stage {
        Socks5Stage::Greeting => if read[0] == SOCKS5_VERSION && read[1] == 0 {
            Socks5Stage::Reply
        } else {
            Socks5Stage::Failed(Socks5Error::HandshakeFailed)
        },
        Socks5Stage::Reply => if read[0] != SOCKS5_VERSION || read[1] != 0 {
            Socks5Stage::Failed(Socks5Error::ConnectFailed)
        } else if read[3] == 0x01 {
            Socks5Stage::Address(6)
        } else if read[3] == 0x03 {
            Socks5Stage::NameLength
        } else if read[3] == 0x04 {
            Socks5Stage::Address(18)
        } else {
            Socks5Stage::Failed(Socks5Error::InvalidAddressType)
        },
        Socks5Stage::NameLength => Socks5Stage::Address((read[0] + 2) as usize),
        Socks5Stage::Address(_) => Socks5Stage::Connected,
        _ => stage,
    }
}

/// The greeting: one way to authenticate is offered, namely none.
pub open spec fn greeting_bytes() -> Seq<u8> {
    seq![0x05u8, 0x01, 0x00]
}

/// The request for a connection to a host by name. Of the length of the name the lowest byte is kept.
pub open spec fn request_bytes(target_host: Seq<char>, target_port: u16) -> Seq<u8> {
    seq![0x05u8, 0x01, 0x00, 0x03] + be_bytes(encode_utf8(target_host).len(), 1) + encode_utf8(
        target_host,
    ) + be_bytes(target_port as nat, 2)
}

/// The greeting.
pub fn socks5_greeting() -> (bytes: Vec<u8>)
    ensures
        bytes@ == greeting_bytes(),
{
    let mut bytes: Vec<u8> = Vec::new();
    bytes.push(0x05);
    bytes.push(0x01);
    bytes.push(0x00);
    assert(bytes@ =~= greeting_bytes());
    bytes
}

/// The request for a connection to a host by name.
pub fn socks5_request(target_host: &str, target_port: u16) -> (bytes: Vec<u8>)
    ensures
        bytes@ == request_bytes(target_host@, target_port),
{
    let mut bytes: Vec<u8> = Vec::new();
    bytes.push(0x05);
    bytes.push(0x01);
    bytes.push(0x00);
    bytes.push(0x03);
    let name: &[u8] = target_host.as_bytes();
    bytes.push((name.len() % 256) as u8);
    bytes.extend_from_slice(name);
    write_be_u16(&mut bytes, target_port as usize);
    proof {
        let len = encode_utf8(target_host@).len();
        reveal_with_fuel(be_bytes, 2);
        assert(be_bytes(len, 1) =~= seq![(len % 256) as u8]);
        assert(bytes@ =~= request_bytes(target_host@, target_port));
    }
    bytes
}

/// An exchange with a proxy.
pub struct Socks5Exchange {
    pub target_host: String,
    pub target_port: u16,
    pub stage: Socks5Stage,
}

impl Socks5Exchange {
    /// An exchange that starts with the greeting, which is to be sent.
    pub fn start(target_host: String, target_port: u16) -> (started: (Socks5Exchange, Vec<u8>))
        ensures
            started.0.target_host@ == target_host@,
            started.0.target_port == target_port,
            started.0.stage is Greeting,
            started.1@ == greeting_bytes(),
    {
        let exchange = Socks5Exchange { target_host, target_port, stage: Socks5Stage::Greeting };
        (exchange, socks5_greeting())
    }

    /// Takes what was read, and gives what is to be sent: after the greeting the request, else
    /// nothing.
    pub fn socks5_connect(&mut self, read: &[u8]) -> (send: Option<Vec<u8>>)
        requires
            read@.len() == old(self).stage.bytes(),
        ensures
            final(self).target_host@ == old(self).target_host@,
            final(self).target_port == old(self).target_port,
            final(self).stage == next_stage(old(self).stage, read@),
            match send {
                Some(bytes) => final(self).stage is Reply && bytes@ == request_bytes(
                    old(self).target_host@,
                    old(self).target_port,
                ),
                None => !(final(self).stage is Reply),
            },
    {
        match self.stage {
            Socks5Stage::Greeting => {
                if read[0] != SOCKS5_VERSION || read[1] != 0 {
                    self.stage = Socks5Stage::Failed(Socks5Error::HandshakeFailed);
                    return None;
                }
                self.stage = Socks5Stage::Reply;
                Some(socks5_request(self.target_host.as_str(), self.target_port))
            },
            Socks5Stage::Reply => {
                self.stage = if read[0] != SOCKS5_VERSION || read[1] != 0 {
                    Socks5Stage::Failed(Socks5Error::ConnectFailed)
                } else if read[3] == 0x01 {
                    Socks5Stage::Address(6)
                } else if read[3] == 0x03 {
                    Socks5Stage::NameLength
                } else if read[3] == 0x04 {
                    Socks5Stage::Address(18)
                } else {
                    Socks5Stage::Failed(Socks5Error::InvalidAddressType)
                };
                None
            },
            Socks5Stage::NameLength => {
                self.stage = Socks5Stage::Address(read[0] as usize + 2);
                None
            },
            Socks5Stage::Address(_) => {
                self.stage = Socks5Stage::Connected;
                None
            },
            _ => None,
        }
    }
}

// ---------------------------------------------------------------------------------------------
// What holds of an exchange as a whole
// ---------------------------------------------------------------------------------------------

/// The stage after all that a proxy says, which `stream` holds from the start on.
pub open spec fn stage_after(stage: Socks5Stage, stream: Seq<u8>, steps: nat) -> Socks5Stage
    decreases steps,
{
    if steps == 0 || stage.is_over() || stream.len() < stage.bytes() {
        stage
    } else {
        stage_after(
            next_stage(stage, stream.take(stage.bytes() as int)),
            stream.skip(stage.bytes() as int),
            (steps - 1) as nat,
        )
    }
}

/// There is a connection only through a proxy that takes the greeting and grants the request, with an
/// address of one of the three kinds.
pub proof fn law_connected_only_when_granted(stream: Seq<u8>, steps: nat)
    requires
        stage_after(Socks5Stage::Greeting, stream, steps) is Connected,
    ensures
        stream.len() >= 6,
        stream[0] == SOCKS5_VERSION,
        stream[1] == 0,
        stream[2] == SOCKS5_VERSION,
        stream[3] == 0,
        stream[5] == 0x01 || stream[5] == 0x03 || stream[5] == 0x04,
{
    reveal_with_fuel(stage_after, 3);
    let rest = stream.skip(2);
    assert(stream.take(2)[0] == stream[0] && stream.take(2)[1] == stream[1]);
    assert(steps >= 2 && rest.len() >= 4);
    assert(rest.take(4)[0] == stream[2] && rest.take(4)[1] == stream[3] && rest.take(4)[3]
        == stream[5]);
}

/// A proxy that takes the greeting and grants the request leads to a connection, after four reads at
/// most, once all of its answer has come: an address of four or sixteen bytes or a counted name, and a
/// port.
pub proof fn law_granted_answer_is_read_whole(stream: Seq<u8>)
    requires
        stream.len() >= 7,
        stream[0] == SOCKS5_VERSION,
        stream[1] == 0,
        stream[2] == SOCKS5_VERSION,
        stream[3] == 0,
        stream[5] == 0x01 || stream[5] == 0x03 || stream[5] == 0x04,
        stream.len() >= 6 + (if stream[5] == 0x01 {
            6
        } else if stream[5] == 0x04 {
            18
        } else {
            1 + stream[6] + 2
        }),
    ensures
        stage_after(Socks5Stage::Greeting, stream, 4) is Connected,
{
    reveal_with_fuel(stage_after, 5);
    let rest = stream.skip(2);
    assert(stream.take(2)[0] == stream[0] && stream.take(2)[1] == stream[1]);
    assert(rest.take(4)[0] == stream[2] && rest.take(4)[1] == stream[3] && rest.take(4)[3]
        == stream[5]);
    let tail = rest.skip(4);
    assert(tail.take(1)[0] == stream[6]);
}

/// A proxy that does not take the greeting, refuses the request, or gives an address of a kind that there
/// is not leads to no connection, and each to an error of its own.
pub proof fn law_refusals(stream: Seq<u8>, steps: nat)
    requires
        stream.len() >= 6,
        steps >= 2,
    ensures
        ({
            let end = stage_after(Socks5Stage::Greeting, stream, steps);
            &&& stream[0] != 5 || stream[1] != 0 ==> end == Socks5Stage::Failed(
                Socks5Error::HandshakeFailed,
            )
            &&& stream[0] == 5 && stream[1] == 0 && (stream[2] != 5 || stream[3] != 0) ==> end
                == Socks5Stage::Failed(Socks5Error::ConnectFailed)
            &&& stream[0] == 5 && stream[1] == 0 && stream[2] == 5 && stream[3] == 0 && stream[5] != 1
                && stream[5] != 3 && stream[5] != 4 ==> end == Socks5Stage::Failed(
                Socks5Error::InvalidAddressType,
            )
        }),
{
    reveal_with_fuel(stage_after, 4);
    let rest = stream.skip(2);
    assert(stream.take(2)[0] == stream[0] && stream.take(2)[1] == stream[1]);
    assert(rest.take(4)[0] == stream[2] && rest.take(4)[1] == stream[3] && rest.take(4)[3]
        == stream[5]);
}

/// Nothing of the answer is left unread, and nothing beyond it is read: two bytes for the greeting, four
/// for the head of the answer, and then an address of four bytes, of sixteen or of as many as are counted,
/// with a port of two.
pub proof fn law_answer_is_read_to_its_end(stream: Seq<u8>)
    requires
        stream.len() >= 7,
        stream[0] == 5,
        stream[1] == 0,
        stream[2] == 5,
        stream[3] == 0,
        stream[5] == 1 || stream[5] == 3 || stream[5] == 4,
    ensures
        ({
            let greeted = next_stage(Socks5Stage::Greeting, stream.take(2));
            let head = next_stage(greeted, stream.subrange(2, 6));
            &&& Socks5Stage::Greeting.bytes() == 2
            &&& greeted.bytes() == 4
            &&& stream[5] == 1 ==> head.bytes() == 6
            &&& stream[5] == 4 ==> head.bytes() == 18
            &&& stream[5] == 3 ==> head.bytes() == 1 && next_stage(
                head,
                stream.subrange(6, 7),
            ).bytes() == stream[6] + 2
        }),
{
    assert(stream.take(2)[0] == stream[0] && stream.take(2)[1] == stream[1]);
    let head = stream.subrange(2, 6);
    assert(head[0] == stream[2] && head[1] == stream[3] && head[3] == stream[5]);
    assert(stream.subrange(6, 7)[0] == stream[6]);
}

/// The greeting offers to do without a password. The request names the host, with the
/// low-order byte of its length, and the port, high-order byte first.
pub proof fn law_bytes_for_the_proxy(target_host: Seq<char>, target_port: u16)
    ensures
        greeting_bytes() == seq![5u8, 1, 0],
        ({
            let s = request_bytes(target_host, target_port);
            let len = encode_utf8(target_host).len();
            &&& s.len() == 7 + len
            &&& s.take(4) == seq![5u8, 1, 0, 3]
            &&& s[4] == len % 256
            &&& s.subrange(5, 5 + len as int) == encode_utf8(target_host)
            &&& 256 * s[5 + len as int] + s[6 + len as int] == target_port
        }),
{
    let len = encode_utf8(target_host).len();
    let s = request_bytes(target_host, target_port);
    reveal_with_fuel(be_bytes, 3);
    assert(be_bytes(len, 1) =~= seq![(len % 256) as u8]);
    let p = target_port as nat;
    assert(be_bytes(p, 2) =~= seq![(p / 256 % 256) as u8, (p % 256) as u8]);
    assert(s.take(4) =~= seq![5u8, 1, 0, 3]);
    assert(s.subrange(5, 5 + len as int) =~= encode_utf8(target_host));
}

/// Once the exchange is over nothing is read any more and nothing changes; what is said of an error tells
/// it from the others.
pub proof fn law_end_of_the_exchange(
    stage: Socks5Stage,
    read: Seq<u8>,
    first: Socks5Error,
    second: Socks5Error,
)
    ensures
        stage is Connected || stage is Failed <==> stage.is_over(),
        stage is Connected || stage is Failed ==> stage.bytes() == 0 && next_stage(stage, read)
            == stage,
        first.text() == second.text() ==> first == second,
{
    reveal_strlit("SOCKS5 handshake failed");
    reveal_strlit("SOCKS5 CONNECT failed");
    reveal_strlit("Invalid SOCKS5 response ATYP");
    assert(first.text().len() == second.text().len() || first.text() != second.text());
}

} // verus!
