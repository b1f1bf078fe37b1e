//! The screen cast portal: its sessions, and the steps by which one is
//! started.
use vstd::prelude::*;
use vstd::string::*;

use crate::assoc::{AssocMap, MapKey};
use crate::portal::screenshot::{OTHER_ERROR, SUCCESS};
use crate::text::{copied, str_eq};

verus! {

/// The only kind of source: a whole monitor.
pub const MONITOR: u32 = 1;

/// The only cursor mode: the cursor is not shown.
pub const HIDDEN: u32 = 1;

/// The path that a session is known by.
#[derive(Debug)]
pub struct SessionPath(pub String);

impl MapKey for SessionPath {
    type Key = Seq<char>;

    open spec fn key(&self) -> Seq<char> {
        self.0@
    }

    fn same(&self, other: &Self) -> (r: bool) {
        str_eq(self.0.as_str(), other.0.as_str())
    }
}

/// One session: what was asked for, and its running cast, if it was started.
#[derive(Debug, Clone, Copy, PartialEq, Eq)]
pub struct SessionState {
    pub source_types: u32,
    pub cursor_mode: u32,
    pub cast: Option<u64>,
}

impl Default for SessionState {
    fn default() -> (r: Self)
        ensures
            r == (SessionState { source_types: 0, cursor_mode: 0, cast: None }),
    {
        SessionState { source_types: 0, cursor_mode: 0, cast: None }
    }
}

/// The next step of starting a session.
#[derive(Debug, Clone, Copy, PartialEq, Eq)]
pub enum StartStep {
    /// Ask the capture for the size of the frames.
    AskForSize,
    /// Start a stream of frames of this size.
    StartStream(u32, u32),
    /// The stream runs as this node: keep its cast.
    Keep(u32),
    /// Answer with an error, once the stream and the capture, or the capture
    /// alone, or neither, were stopped.
    Fail { stop_stream: bool, stop_capture: bool },
}

/// What the capture says when it is asked for the size of the frames.
#[derive(Debug, Clone, Copy, PartialEq, Eq, Structural)]
pub enum SizeReply {
    /// It could not be asked.
    NotSent,
    Size(u32, u32),
    Failed,
    /// It never answered.
    Dropped,
}

/// What a stream says when it is started.
#[derive(Debug, Clone, Copy, PartialEq, Eq, Structural)]
pub enum NodeReply {
    Node(u32),
    Failed,
    /// It is gone without an answer.
    Dropped,
    /// It did not answer in time.
    TimedOut,
}

/// The step after the capture was asked for the size of the frames.
pub fn after_size(reply: SizeReply) -> (r: StartStep)
    ensures
        r == match reply {
            SizeReply::Size(width, height) => StartStep::StartStream(width, height),
            _ => StartStep::Fail { stop_stream: false, stop_capture: false },
        },
{
    match reply {
        SizeReply::Size(width, height) => StartStep::StartStream(width, height),
        _ => StartStep::Fail { stop_stream: false, stop_capture: false },
    }
}

/// The step after the stream was started. Whenever it fails, the capture is
/// stopped; so is the stream, unless it is gone already.
pub fn after_node(reply: NodeReply) -> (r: StartStep)
    ensures
        r == match reply {
            NodeReply::Node(id) => StartStep::Keep(id),
            NodeReply::Dropped => StartStep::Fail { stop_stream: false, stop_capture: true },
            _ => StartStep::Fail { stop_stream: true, stop_capture: true },
        },
{
    match reply {
        NodeReply::Node(id) => StartStep::Keep(id),
        NodeReply::Dropped => StartStep::Fail { stop_stream: false, stop_capture: true },
        _ => StartStep::Fail { stop_stream: true, stop_capture: true },
    }
}

/// A stream as it is reported to whoever asked for it.
#[derive(Debug, Clone, Copy, PartialEq, Eq)]
pub struct StreamInfo {
    pub node_id: u32,
    pub source_type: u32,
    pub size: (i32, i32),
}

/// The screen cast backend: its sessions by their paths.
pub struct ScreenCastBackend {
    pub sessions: AssocMap<SessionPath, SessionState>,
}

/// Whether a session may be started: it exists, and was not started before.
pub open spec fn startable(sessions: Map<Seq<char>, SessionState>, path: Seq<char>) -> bool {
    sessions.contains_key(path) && sessions[path].cast is None
}

fn path_key(path: &str) -> (r: SessionPath)
    ensures
        r.key() == path@,
{
    SessionPath(copied(path))
}

impl ScreenCastBackend {
    pub fn new() -> (r: Self)
        ensures
            r.sessions@ == Map::<Seq<char>, SessionState>::empty(),
    {
        ScreenCastBackend { sessions: AssocMap::new() }
    }

    pub fn version(&self) -> (r: u32)
        ensures
            r == 4,
    {
        4
    }

    pub fn available_source_types(&self) -> (r: u32)
        ensures
            r == MONITOR,
    {
        MONITOR
    }

    pub fn available_cursor_modes(&self) -> (r: u32)
        ensures
            r == HIDDEN,
    {
        HIDDEN
    }

    /// Creates a session. `exported` says whether its object could be made
    /// available; a session that could not be is forgotten.
    pub fn create_session(&mut self, path: &str, exported: bool) -> (r: u32)
        ensures
            final(self).sessions@ == if exported {
                old(self).sessions@.insert(
                    path@,
                    SessionState { source_types: 0, cursor_mode: 0, cast: None },
                )
            } else {
                old(self).sessions@.remove(path@)
            },
            r == if exported {
                SUCCESS
            } else {
                OTHER_ERROR
            },
    {
        self.sessions.insert(path_key(path), SessionState::default());
        if !exported {
            self.sessions.remove(&path_key(path));
            assert(self.sessions@ =~= old(self).sessions@.remove(path@));
            return OTHER_ERROR;
        }
        SUCCESS
    }

    /// Notes what a session is to show, as far as it is said.
    pub fn select_sources(&mut self, path: &str, types: Option<u32>, mode: Option<u32>) -> (r: u32)
        ensures
            if old(self).sessions@.contains_key(path@) {
                let s = old(self).sessions@[path@];
                &&& r == SUCCESS
                &&& final(self).sessions@ == old(self).sessions@.insert(
                    path@,
                    SessionState {
                        source_types: match types {
                            Some(t) => t,
                            None => s.source_types,
                        },
                        cursor_mode: match mode {
                            Some(m) => m,
                            None => s.cursor_mode,
                        },
                        cast: s.cast,
                    },
                )
            } else {
                r == OTHER_ERROR && final(self).sessions@ == old(self).sessions@
            },
    {
        let key = path_key(path);
        match self.sessions.get_mut(&key) {
            None => OTHER_ERROR,
            Some(session) => {
                if let Some(t) = types {
                    session.source_types = t;
                }
                if let Some(m) = mode {
                    session.cursor_mode = m;
                }
                SUCCESS
            },
        }
    }

    /// The first step of starting a session. One that does not exist or was
    /// started before is refused.
    pub fn start(&self, path: &str) -> (r: StartStep)
        ensures
            r == if startable(self.sessions@, path@) {
                StartStep::AskForSize
            } else {
                StartStep::Fail { stop_stream: false, stop_capture: false }
            },
    {
        match self.sessions.get(&path_key(path)) {
            None => StartStep::Fail { stop_stream: false, stop_capture: false },
            Some(session) => {
                if session.cast.is_some() {
                    StartStep::Fail { stop_stream: false, stop_capture: false }
                } else {
                    StartStep::AskForSize
                }
            },
        }
    }

    /// The last step: a running cast is kept in its session, and reported. If
    /// the session was closed meanwhile, everything is stopped.
    pub fn finish_start(&mut self, path: &str, cast: u64, node_id: u32, width: u32, height: u32) -> (r:
        Result<StreamInfo, StartStep>)
        ensures
            if old(self).sessions@.contains_key(path@) {
                &&& final(self).sessions@ == old(self).sessions@.insert(
                    path@,
                    SessionState { cast: Some(cast), ..old(self).sessions@[path@] },
                )
                &&& r == Ok::<StreamInfo, StartStep>(
                    StreamInfo {
                        node_id,
                        source_type: MONITOR,
                        size: (width as i32, height as i32),
                    },
                )
            } else {
                &&& final(self).sessions@ == old(self).sessions@
                &&& r == Err::<StreamInfo, StartStep>(
                    StartStep::Fail { stop_stream: true, stop_capture: true },
                )
            },
    {
        let key = path_key(path);
        match self.sessions.get_mut(&key) {
            None => Err(StartStep::Fail { stop_stream: true, stop_capture: true }),
            Some(session) => {
                session.cast = Some(cast);
                Ok(
                    StreamInfo {
                        node_id,
                        source_type: MONITOR,
                        size: (width as i32, height as i32),
                    },
                )
            },
        }
    }

    /// Closes a session. Returns its cast, which has to be stopped along with
    /// the capture.
    pub fn close(&mut self, path: &str) -> (r: Option<u64>)
        ensures
            final(self).sessions@ == old(self).sessions@.remove(path@),
            r == if old(self).sessions@.contains_key(path@) {
                old(self).sessions@[path@].cast
            } else {
                None
            },
    {
        match self.sessions.remove(&path_key(path)) {
            Some(session) => session.cast,
            None => {
                assert(self.sessions@ =~= old(self).sessions@.remove(path@));
                None
            },
        }
    }
}

/// A session that is running cannot be started again; one that was created anew
/// can, and one that was closed cannot.
pub proof fn law_start_once(sessions: Map<Seq<char>, SessionState>, path: Seq<char>, cast: u64)
    ensures
        sessions.contains_key(path) ==> !startable(
            sessions.insert(path, SessionState { cast: Some(cast), ..sessions[path] }),
            path,
        ),
        startable(
            sessions.insert(
                path,
                SessionState { source_types: 0, cursor_mode: 0, cast: None },
            ),
            path,
        ),
        !startable(sessions.remove(path), path),
{
}

} // verus!
