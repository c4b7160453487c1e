//! The boundary between the service and its editor.
//!
//! Framing is newline-delimited: one request per line, one response per line. A failure is a
//! value, not a dropped connection — the editor must be able to render "that did not work, here
//! is why" without guessing from a closed pipe.
use crate::text::{blank, is_blank, joined};
use vstd::prelude::*;
use vstd::utf8::{decode_utf8, valid_utf8};

verus! {

/// Bumped when a change would make an older editor misread a newer service, or the reverse.
pub const PROTOCOL_VERSION: u32 = 4;

/// The pipe both sides meet on. One name for the machine: there is one set of fans.
pub const PIPE_NAME: &'static str = "\\\\.\\pipe\\OpenFan";

/// The service's registered name.
pub const SERVICE_NAME: &'static str = "OpenFan";

/// What the service is called in the service manager's list.
pub const SERVICE_DISPLAY_NAME: &'static str = "OpenFan fan control";

/// An answer of the service, as far as carrying it goes.
#[derive(Debug, Clone, PartialEq, Eq)]
pub enum Response {
    Hello {
        /// Semantic version of the service binary.
        version: String,
        /// The protocol on the other end.
        protocol: u32,
    },
    /// The request was understood and could not be carried out.
    Error { message: String },
    /// Anything else: an answer that is handed on as it is.
    Answer,
}

impl Response {
    /// The error text, if this is a failure.
    pub fn error_message(&self) -> (r: Option<&str>)
        ensures
            match r {
                Some(text) => *self matches Response::Error { message } && text@ == message@,
                None => !(*self is Error),
            },
    {
        match self {
            Response::Error { message } => Some(message.as_str()),
            _ => None,
        }
    }
}

/// Anything that can go wrong carrying a message.
#[derive(Debug, Clone, PartialEq, Eq)]
pub enum RpcError {
    NotRunning,
    Io(String),
    Protocol(String),
    Closed,
    Unsupported,
}

impl RpcError {
    /// What this says to a person.
    pub fn message(&self) -> (r: String)
        ensures
            r@ == match *self {
                RpcError::NotRunning => "the OpenFan service is not running"@,
                RpcError::Io(reason) => "transport failed: "@ + reason@,
                RpcError::Protocol(reason) => "could not understand the other end: "@ + reason@,
                RpcError::Closed => "the connection closed before a reply arrived"@,
                RpcError::Unsupported => "named-pipe transport is only implemented on Windows"@,
            },
    {
        match self {
            RpcError::NotRunning => "the OpenFan service is not running".to_owned(),
            RpcError::Io(reason) => joined("transport failed: ", reason.as_str()),
            RpcError::Protocol(reason) => joined(
                "could not understand the other end: ",
                reason.as_str(),
            ),
            RpcError::Closed => "the connection closed before a reply arrived".to_owned(),
            RpcError::Unsupported => "named-pipe transport is only implemented on Windows".to_owned(),
        }
    }
}

/// The OS code of a file that is not there.
pub const ERROR_FILE_NOT_FOUND: i32 = 2;

/// The OS code of a pipe that is taken.
pub const ERROR_PIPE_BUSY: i32 = 231;

/// What a pipe that could not be opened comes to: "not found" and "busy" both mean that the
/// service is not available right now.
pub fn open_error(os: Option<i32>, reason: String) -> (r: RpcError)
    ensures
        r == if os == Some(ERROR_FILE_NOT_FOUND) || os == Some(ERROR_PIPE_BUSY) {
            RpcError::NotRunning
        } else {
            RpcError::Io(reason)
        },
{
    match os {
        Some(code) => if code == ERROR_FILE_NOT_FOUND || code == ERROR_PIPE_BUSY {
            RpcError::NotRunning
        } else {
            RpcError::Io(reason)
        },
        None => RpcError::Io(reason),
    }
}

/// Whether the line that came back is a reply: a blank one means that the connection closed.
pub fn check_reply(line: &str) -> (r: Result<(), RpcError>)
    ensures
        match r {
            Ok(_) => !blank(line@),
            Err(e) => e is Closed && blank(line@),
        },
{
    if is_blank(line) {
        Err(RpcError::Closed)
    } else {
        Ok(())
    }
}

/// Whether the service is listening, given what came of greeting it.
pub fn service_reachable(greeted: &Result<Response, RpcError>) -> (r: bool)
    ensures
        r == (*greeted is Ok && greeted->Ok_0 is Hello),
{
    match greeted {
        Ok(Response::Hello { .. }) => true,
        _ => false,
    }
}

/// What a request that cannot be understood is answered: a client that sent nonsense deserves to
/// be told so rather than watching the pipe close.
pub fn malformed(reason: &str) -> (r: Response)
    ensures
        r matches Response::Error { message } && message@ == "malformed request: "@ + reason@,
{
    Response::Error { message: joined("malformed request: ", reason) }
}

/// What `String::from_utf8` of std gives of some bytes: the text that they encode, or nothing
/// where they are no UTF-8.
#[verifier::external_body]
fn text_in(bytes: &Vec<u8>) -> (r: Option<String>)
    ensures
        match r {
            Some(text) => valid_utf8(bytes@) && text@ == decode_utf8(bytes@),
            None => !valid_utf8(bytes@),
        },
{
    String::from_utf8(bytes.clone()).ok()
}

/// What a line from a client calls for.
#[derive(Debug, Clone, PartialEq, Eq)]
pub enum Incoming {
    /// Nothing: a blank line is ignored rather than answered.
    Nothing,
    /// A request, to be understood and answered.
    Request(String),
    /// This answer: the line is no text at all.
    Answer(Response),
}

/// What a line from a client calls for. One that is no text is answered like any other that
/// cannot be understood, and the connection stays.
pub fn incoming(line: &Vec<u8>) -> (r: Incoming)
    ensures
        match r {
            Incoming::Nothing => valid_utf8(line@) && blank(decode_utf8(line@)),
            Incoming::Request(text) => valid_utf8(line@) && !blank(decode_utf8(line@)) && text@
                == decode_utf8(line@),
            Incoming::Answer(answer) => !valid_utf8(line@) && (answer matches Response::Error {
                message,
            } && message@ == "malformed request: "@ + "the line is not valid UTF-8"@),
        },
{
    match text_in(line) {
        Some(text) => if is_blank(text.as_str()) {
            Incoming::Nothing
        } else {
            Incoming::Request(text)
        },
        None => Incoming::Answer(malformed("the line is not valid UTF-8")),
    }
}

// --- Framing -------------------------------------------------------------------------------------

/// The byte that ends a line.
pub const NEWLINE: u8 = 10;

/// The byte that may stand before it.
pub const CARRIAGE_RETURN: u8 = 13;

/// A line without the carriage return before its newline.
pub open spec fn stripped(line: Seq<u8>) -> Seq<u8> {
    if line.len() > 0 && line.last() == CARRIAGE_RETURN {
        line.drop_last()
    } else {
        line
    }
}

/// The lines that end among the first `n` of some bytes, and what is not a whole line yet,
/// where `pending` was not before them.
pub open spec fn cut(pending: Seq<u8>, bytes: Seq<u8>, n: nat) -> (Seq<Seq<u8>>, Seq<u8>)
    decreases n,
{
    if n == 0 {
        (Seq::empty(), pending)
    } else {
        let (done, current) = cut(pending, bytes, (n - 1) as nat);
        if bytes[n - 1] == NEWLINE {
            (done.push(stripped(current)), Seq::empty())
        } else {
            (done, current.push(bytes[n - 1]))
        }
    }
}

/// What lines say.
pub open spec fn line_views(lines: Seq<Vec<u8>>) -> Seq<Seq<u8>> {
    Seq::new(lines.len(), |i: int| lines[i]@)
}

/// What has come in on a connection and is not a whole line yet.
#[derive(Debug)]
pub struct Inbox {
    pending: Vec<u8>,
}

impl View for Inbox {
    type V = Seq<u8>;

    closed spec fn view(&self) -> Seq<u8> {
        self.pending@
    }
}

impl Inbox {
    /// A connection on which nothing has come in.
    pub fn new() -> (r: Inbox)
        ensures
            r@ == Seq::<u8>::empty(),
    {
        Inbox { pending: Vec::new() }
    }

    /// Takes in what came, and gives the lines that are whole now.
    pub fn hear(&mut self, bytes: &Vec<u8>) -> (r: Vec<Vec<u8>>)
        ensures
            (line_views(r@), final(self)@) == cut(old(self)@, bytes@, bytes@.len()),
    {
        let ghost start = self@;
        let mut done: Vec<Vec<u8>> = Vec::new();
        let n: usize = bytes.len();
        assert(line_views(done@) =~= Seq::empty());
        for i in 0..n
            invariant
                n == bytes@.len(),
                (line_views(done@), self@) == cut(start, bytes@, i as nat),
        {
            if bytes[i] == NEWLINE {
                let ghost before = line_views(done@);
                let ghost line = self@;
                let mut whole: Vec<u8> = Vec::new();
                whole.append(&mut self.pending);
                assert(whole@ =~= line);
                let length: usize = whole.len();
                if length > 0 && whole[length - 1] == CARRIAGE_RETURN {
                    whole.pop();
                }
                assert(whole@ =~= stripped(line));
                done.push(whole);
                assert(line_views(done@) =~= before.push(stripped(line)));
                assert(self@ =~= Seq::empty());
            } else {
                self.pending.push(bytes[i]);
            }
        }
        done
    }

    /// The connection has ended: what came last need not end with a newline.
    pub fn close(&mut self) -> (r: Option<Vec<u8>>)
        ensures
            match r {
                Some(line) => old(self)@.len() > 0 && line@ == old(self)@,
                None => old(self)@.len() == 0,
            },
            final(self)@ == Seq::<u8>::empty(),
    {
        let ghost start = self@;
        let mut rest: Vec<u8> = Vec::new();
        rest.append(&mut self.pending);
        assert(rest@ =~= start);
        assert(self@ =~= Seq::empty());
        if rest.len() > 0 {
            Some(rest)
        } else {
            None
        }
    }
}

/// A message as it is sent: one line.
pub fn framed(message: &Vec<u8>) -> (r: Vec<u8>)
    ensures
        r@ == message@.push(NEWLINE),
{
    let mut out = message.clone();
    out.push(NEWLINE);
    assert(out@ =~= message@.push(NEWLINE));
    out
}

/// The first `n` messages as they are sent, one after the other.
pub open spec fn sent(messages: Seq<Seq<u8>>, n: nat) -> Seq<u8>
    decreases n,
{
    if n == 0 {
        Seq::empty()
    } else {
        sent(messages, (n - 1) as nat) + messages[n - 1].push(NEWLINE)
    }
}

// --- Laws ----------------------------------------------------------------------------------------

/// Whether a message fits on one line.
pub open spec fn one_line(message: Seq<u8>) -> bool {
    forall|i: int|
        0 <= i < message.len() ==> (#[trigger] message[i]) != NEWLINE && message[i]
            != CARRIAGE_RETURN
}

proof fn lemma_cut_prefix(pending: Seq<u8>, a: Seq<u8>, b: Seq<u8>, n: nat)
    requires
        n <= a.len(),
    ensures
        cut(pending, a + b, n) == cut(pending, a, n),
    decreases n,
{
    if n > 0 {
        lemma_cut_prefix(pending, a, b, (n - 1) as nat);
        assert((a + b)[n - 1] == a[n - 1]);
    }
}

proof fn lemma_cut_rest(pending: Seq<u8>, a: Seq<u8>, b: Seq<u8>, n: nat)
    requires
        n <= b.len(),
    ensures
        ({
            let (first, left) = cut(pending, a, a.len());
            let (second, last) = cut(left, b, n);
            cut(pending, a + b, a.len() + n) == (first + second, last)
        }),
    decreases n,
{
    let (first, left) = cut(pending, a, a.len());
    if n == 0 {
        lemma_cut_prefix(pending, a, b, a.len());
        assert(first + Seq::<Seq<u8>>::empty() =~= first);
    } else {
        lemma_cut_rest(pending, a, b, (n - 1) as nat);
        let (second, last) = cut(left, b, (n - 1) as nat);
        assert((a + b)[a.len() + n - 1] == b[n - 1]);
        if b[n - 1] == NEWLINE {
            assert((first + second).push(stripped(last)) =~= first + second.push(stripped(last)));
        }
    }
}

/// What is heard does not depend on the pieces it comes in: hearing two pieces one after the
/// other gives the lines that hearing them at once does, and leaves the same behind.
pub proof fn the_pieces_do_not_matter(pending: Seq<u8>, a: Seq<u8>, b: Seq<u8>)
    ensures
        ({
            let (first, left) = cut(pending, a, a.len());
            let (second, last) = cut(left, b, b.len());
            cut(pending, a + b, (a + b).len()) == (first + second, last)
        }),
{
    lemma_cut_rest(pending, a, b, b.len());
}

proof fn lemma_line_grows(m: Seq<u8>, k: nat)
    requires
        k <= m.len(),
        one_line(m),
    ensures
        cut(Seq::empty(), m.push(NEWLINE), k) == (Seq::<Seq<u8>>::empty(), m.take(k as int)),
    decreases k,
{
    if k == 0 {
        assert(m.take(0) =~= Seq::empty());
    } else {
        lemma_line_grows(m, (k - 1) as nat);
        assert(m.push(NEWLINE)[k - 1] == m[k - 1]);
        assert(m.take(k - 1).push(m[k - 1]) =~= m.take(k as int));
    }
}

proof fn lemma_sent(messages: Seq<Seq<u8>>, n: nat)
    requires
        n <= messages.len(),
        forall|i: int| 0 <= i < messages.len() ==> one_line(#[trigger] messages[i]),
    ensures
        cut(Seq::empty(), sent(messages, n), sent(messages, n).len()) == (
            messages.take(n as int),
            Seq::<u8>::empty(),
        ),
    decreases n,
{
    if n == 0 {
        assert(messages.take(0) =~= Seq::empty());
    } else {
        let m = messages[n - 1];
        let a = sent(messages, (n - 1) as nat);
        lemma_sent(messages, (n - 1) as nat);
        assert(one_line(m));
        lemma_line_grows(m, m.len());
        assert(m.take(m.len() as int) =~= m);
        let line = m.push(NEWLINE);
        assert(line[m.len() as int] == NEWLINE);
        if m.len() > 0 {
            assert(m[m.len() - 1] != CARRIAGE_RETURN);
        }
        assert(stripped(m) == m);
        assert(cut(Seq::empty(), line, line.len()) == (seq![m], Seq::<u8>::empty())) by {
            assert(Seq::<Seq<u8>>::empty().push(m) =~= seq![m]);
        }
        the_pieces_do_not_matter(Seq::empty(), a, line);
        assert(messages.take(n - 1) + seq![m] =~= messages.take(n as int));
    }
}

/// A line may end in a carriage return, of which one is dropped, and nothing else is.
pub proof fn one_carriage_return_is_dropped(line: Seq<u8>)
    ensures
        stripped(line.push(CARRIAGE_RETURN)) == line,
        line.len() == 0 || line.last() != CARRIAGE_RETURN ==> stripped(line) == line,
{
    assert(line.push(CARRIAGE_RETURN).drop_last() =~= line);
}

/// The framing holds: messages that fit on a line arrive as they were sent, each on its own
/// line and in order. None is lost, none is made up, and nothing is left over.
pub proof fn messages_arrive_line_by_line(messages: Seq<Seq<u8>>)
    requires
        forall|i: int| 0 <= i < messages.len() ==> one_line(#[trigger] messages[i]),
    ensures
        cut(
            Seq::empty(),
            sent(messages, messages.len()),
            sent(messages, messages.len()).len(),
        ) == (messages, Seq::<u8>::empty()),
{
    lemma_sent(messages, messages.len());
    assert(messages.take(messages.len() as int) =~= messages);
}

} // verus!
