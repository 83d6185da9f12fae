//! Messages of the publisher wire protocol and the parameters of the HTTP stream routes.
use vstd::prelude::*;

verus! {

/// A frame of a channel: the channel's name and the JPEG bytes.
pub struct FrameMsg {
    pub id: String,
    pub data: Vec<u8>,
}

impl FrameMsg {
    pub fn new(id: String, data: Vec<u8>) -> (m: FrameMsg)
        ensures
            m.id@ == id@,
            m.data@ == data@,
    {
        FrameMsg { id, data }
    }
}

/// A message of the publisher protocol: a connect request naming the channel, sent
/// once and first, then frames.
pub enum ProtoMsg {
    ConnectReq(String),
    FrameMsg(FrameMsg),
}

/// Transport a publisher uses to reach the server.
#[derive(Clone, Copy, Debug, PartialEq, Eq, Structural)]
pub enum Protocol {
    Tcp,
}

/// The protocol a name stands for: `tcp`, `Tcp` or `TCP`.
pub open spec fn protocol_named(s: Seq<char>) -> Option<Protocol> {
    if s == seq!['t', 'c', 'p'] || s == seq!['T', 'c', 'p'] || s == seq!['T', 'C', 'P'] {
        Some(Protocol::Tcp)
    } else {
        None
    }
}

impl Protocol {
    /// Reads a protocol name; an unknown name is handed back as the error.
    pub fn parse(s: &str) -> (r: Result<Protocol, String>)
        ensures
            match r {
                Ok(p) => protocol_named(s@) == Some(p),
                Err(e) => protocol_named(s@) is None && e@ == s@,
            },
    {
        let given = s.to_owned();
        let lower = "tcp".to_owned();
        let capital = "Tcp".to_owned();
        let upper = "TCP".to_owned();
        proof {
            reveal_strlit("tcp");
            reveal_strlit("Tcp");
            reveal_strlit("TCP");
            assert(lower@ =~= seq!['t', 'c', 'p']);
            assert(capital@ =~= seq!['T', 'c', 'p']);
            assert(upper@ =~= seq!['T', 'C', 'P']);
        }
        if given == lower || given == capital || given == upper {
            Ok(Protocol::Tcp)
        } else {
            Err(given)
        }
    }
}

impl std::str::FromStr for Protocol {
    type Err = String;

    fn from_str(s: &str) -> Result<Protocol, String> {
        Protocol::parse(s)
    }
}

/// The channel name used when a stream request names none.
pub open spec fn default_channel_name() -> Seq<char> {
    seq!['u', 'n', 'k', 'n', 'o', 'w', 'n']
}

/// Query parameters of the stream routes.
pub struct StreamParams {
    pub name: Option<String>,
}

impl StreamParams {
    /// The requested channel, `unknown` when none was named.
    pub fn channel_name(&self) -> (name: String)
        ensures
            name@ == match self.name {
                Some(n) => n@,
                None => default_channel_name(),
            },
    {
        match &self.name {
            Some(n) => n.clone(),
            None => {
                let name = "unknown".to_owned();
                proof {
                    reveal_strlit("unknown");
                    assert(name@ =~= default_channel_name());
                }
                name
            },
        }
    }
}

} // verus!
