//! Chat over HTTP/2: the rules of the service and of its connector, on plain
//! values.

use vstd::prelude::*;

verus! {

/// `String::push_str` of std. Trusted, from its documentation: the string
/// slice is appended to the end of the string.
pub assume_specification[ String::push_str ](buf: &mut String, string: &str)
    ensures
        final(buf)@ == old(buf)@ + string@,
;

/// Why a request did not get its reply.
#[derive(Clone, Debug, PartialEq, Eq)]
pub enum NetError {
    /// No reply came in time.
    Timeout,
    /// The transport failed; the text says how.
    Failure(String),
}

/// What can go wrong between the chat service and its server.
#[derive(Clone, Debug, PartialEq, Eq)]
pub enum ChatNetworkError {
    /// The message to send holds no request.
    UnexpectedMessageType,
    /// The connection was not made in time.
    Timeout,
    /// The connection could not be made; the text says why.
    FailedToConnectHttp(String),
    /// The request could not be sent, or its reply did not come.
    FailedToSendHttp(NetError),
    /// This side stopped the service.
    ChannelClosedByLocalPeer,
    /// The server closed the channel.
    ChannelClosedByRemotePeer,
    /// The channel broke; the text says how.
    ChannelClosedWithError(String),
}

/// A request to the chat server.
#[derive(Clone, Debug, PartialEq, Eq)]
pub struct RequestProto {
    pub verb: Option<String>,
    pub path: Option<String>,
    pub body: Option<Vec<u8>>,
    pub headers: Vec<String>,
    pub id: Option<u64>,
}

/// A reply of the chat server.
#[derive(Clone, Debug, PartialEq, Eq)]
pub struct ResponseProto {
    pub id: Option<u64>,
    pub status: Option<u32>,
    pub message: Option<String>,
    pub headers: Vec<String>,
    pub body: Option<Vec<u8>>,
}

/// A message of the chat protocol: a request, a reply, or neither.
#[derive(Clone, Debug, PartialEq, Eq)]
pub struct MessageProto {
    pub request: Option<RequestProto>,
    pub response: Option<ResponseProto>,
}

/// An HTTP reply as the transport hands it over: the status code, the status
/// line's text, the header fields by name and value, and the whole body.
#[derive(Clone, Debug, PartialEq, Eq)]
pub struct HttpReply {
    pub status: u16,
    pub status_text: String,
    pub headers: Vec<(String, String)>,
    pub body: Vec<u8>,
}

/// How an attempt to connect ended.
#[derive(Clone, Debug, PartialEq, Eq)]
pub enum Connecting<C> {
    /// The time allowed ran out first.
    TimedOut,
    /// The channel is there.
    Connected(C),
    /// The attempt failed; the text says why.
    Failed(String),
}

/// What ended the life of a channel.
#[derive(Debug, PartialEq, Eq)]
pub enum ChannelEvent {
    /// The service was stopped from this side.
    Cancellation,
    /// The connection ended, by itself or with an error.
    ChannelClosed(Result<(), String>),
}

/// A header field as one line: the name, a colon and a space, the value.
pub open spec fn header_line(name: Seq<char>, value: Seq<char>) -> Seq<char> {
    name + seq![':', ' '] + value
}

/// The lines of header fields.
pub open spec fn header_lines(headers: Seq<(String, String)>) -> Seq<Seq<char>> {
    headers.map_values(|h: (String, String)| header_line(h.0@, h.1@))
}

/// The texts of strings.
pub open spec fn texts(lines: Seq<String>) -> Seq<Seq<char>> {
    lines.map_values(|l: String| l@)
}

/// The error that reports the end of a channel.
pub open spec fn closing_error(event: ChannelEvent) -> ChatNetworkError {
    match event {
        ChannelEvent::Cancellation => ChatNetworkError::ChannelClosedByLocalPeer,
        ChannelEvent::ChannelClosed(Ok(_)) => ChatNetworkError::ChannelClosedByRemotePeer,
        ChannelEvent::ChannelClosed(Err(e)) => ChatNetworkError::ChannelClosedWithError(e),
    }
}

/// Makes the chat service for a channel to the server.
#[derive(Clone, Debug, PartialEq, Eq)]
pub struct ChatOverHttp2ServiceConnector {}

impl ChatOverHttp2ServiceConnector {
    /// The seconds a connection may take to be made.
    pub fn connect_timeout_secs(&self) -> (secs: u64)
        ensures
            secs == 2,
    {
        2
    }

    /// What connecting returns for the way the attempt ended: the channel, or
    /// `Timeout`, or `FailedToConnectHttp` with the attempt's own account.
    pub fn connect_channel<C>(&self, attempt: Connecting<C>) -> (out: Result<C, ChatNetworkError>)
        ensures
            out == match attempt {
                Connecting::TimedOut => Err::<C, ChatNetworkError>(ChatNetworkError::Timeout),
                Connecting::Connected(channel) => Ok(channel),
                Connecting::Failed(why) => Err(ChatNetworkError::FailedToConnectHttp(why)),
            },
    {
        match attempt {
            Connecting::TimedOut => Err(ChatNetworkError::Timeout),
            Connecting::Connected(channel) => Ok(channel),
            Connecting::Failed(why) => Err(ChatNetworkError::FailedToConnectHttp(why)),
        }
    }

    /// The service that runs on a channel once it is connected.
    pub fn start_service(&self) -> (service: ChatOverHttp2)
        ensures
            service == (ChatOverHttp2 {  }),
    {
        ChatOverHttp2 {  }
    }

    /// The error the service is stopped with when its channel ends.
    pub fn stop_reason(&self, event: ChannelEvent) -> (error: ChatNetworkError)
        ensures
            error == closing_error(event),
    {
        match event {
            ChannelEvent::Cancellation => ChatNetworkError::ChannelClosedByLocalPeer,
            ChannelEvent::ChannelClosed(Ok(_)) => ChatNetworkError::ChannelClosedByRemotePeer,
            ChannelEvent::ChannelClosed(Err(e)) => ChatNetworkError::ChannelClosedWithError(e),
        }
    }
}

/// The chat service over one HTTP/2 channel.
#[derive(Clone, Debug, PartialEq, Eq)]
pub struct ChatOverHttp2 {}

impl ChatOverHttp2 {
    /// The request a message carries. A message without one cannot be sent.
    pub fn request_of<'a>(&self, msg: &'a MessageProto) -> (out: Result<
        &'a RequestProto,
        ChatNetworkError,
    >)
        ensures
            match msg.request {
                Some(request) => out == Ok::<&RequestProto, ChatNetworkError>(&request),
                None => out == Err::<&RequestProto, ChatNetworkError>(
                    ChatNetworkError::UnexpectedMessageType,
                ),
            },
    {
        match &msg.request {
            Some(request) => Ok(request),
            None => Err(ChatNetworkError::UnexpectedMessageType),
        }
    }

    /// What sending a request returns for what came back: the reply under the
    /// request's id, with its status, the status line's text, one line for
    /// each header field, and the body unless it is empty; or
    /// `FailedToSendHttp` with the transport's error.
    pub fn send(&self, id: Option<u64>, came_back: Result<HttpReply, NetError>) -> (out: Result<
        ResponseProto,
        ChatNetworkError,
    >)
        ensures
            match came_back {
                Ok(reply) => {
                    &&& out matches Ok(response)
                    &&& response.id == id
                    &&& response.status == Some(reply.status as u32)
                    &&& response.message == Some(reply.status_text)
                    &&& response.body == if reply.body@.len() == 0 {
                        None
                    } else {
                        Some(reply.body)
                    }
                    &&& texts(response.headers@) == header_lines(reply.headers@)
                },
                Err(e) => out == Err::<ResponseProto, ChatNetworkError>(
                    ChatNetworkError::FailedToSendHttp(e),
                ),
            },
    {
        match came_back {
            Ok(reply) => {
                let HttpReply { status, status_text, headers: fields, body } = reply;
                let mut headers: Vec<String> = Vec::new();
                let mut i: usize = 0;
                assert(texts(headers@) =~= header_lines(fields@.take(0)));
                while i < fields.len()
                    invariant
                        i <= fields@.len(),
                        texts(headers@) == header_lines(fields@.take(i as int)),
                    decreases fields@.len() - i,
                {
                    let mut line = String::new();
                    line.push_str(fields[i].0.as_str());
                    line.push_str(": ");
                    line.push_str(fields[i].1.as_str());
                    proof {
                        reveal_strlit(": ");
                        assert(": "@ =~= seq![':', ' ']);
                        assert(line@ =~= header_line(fields@[i as int].0@, fields@[i as int].1@));
                    }
                    let ghost before = headers@;
                    headers.push(line);
                    assert(texts(headers@) =~= header_lines(fields@.take(i + 1))) by {
                        assert(texts(headers@) =~= texts(before).push(line@));
                        assert(fields@.take(i + 1) =~= fields@.take(i as int).push(fields@[i as int]));
                    }
                    i += 1;
                }
                assert(fields@.take(i as int) =~= fields@);
                let body = if body.len() == 0 {
                    None
                } else {
                    Some(body)
                };
                Ok(
                    ResponseProto {
                        id,
                        status: Some(status as u32),
                        message: Some(status_text),
                        body,
                        headers,
                    },
                )
            },
            Err(e) => Err(ChatNetworkError::FailedToSendHttp(e)),
        }
    }
}

} // verus!
