//! The writer coordinator: the single owner of every shard writer. It
//! processes one request at a time, so all writes to a shard are totally
//! ordered by acceptance order and never interleaved. Opening a shard is
//! idempotent, and a payload addressed to a shard that was never opened
//! is answered with an error, not repaired.
//!
//! The coordinator itself performs no I/O. For each request it first
//! hands out the file-system action the request needs, the runtime
//! performs it and reports whether it succeeded, and the coordinator
//! answers from that outcome: a failed open or append becomes an
//! explicit error response, never an abort.

use vstd::prelude::*;

use vstd::assert_sets_equal;

use crate::text::str_eq;
use crate::text::strs_view;

verus! {

/// A request submitted to the coordinator.
#[derive(Debug)]
pub enum RequestHeader {
    /// A pure handshake; no I/O, always succeeds.
    Prepare,
    /// An append of the request body to the shard at `key`.
    Payload { key: String },
    /// A cleanup notification, acknowledged without forcing I/O.
    Cleanup,
    /// An explicit error echo.
    Error,
}

/// How the coordinator answers a request.
#[derive(Debug)]
pub enum ResponseHeader {
    Ready,
    Finished,
    Error,
}

/// A write request: a header naming the operation and the payload body.
#[derive(Debug)]
pub struct Request {
    pub header: RequestHeader,
    pub body: String,
}

/// The coordinator's answer to one request.
#[derive(Debug)]
pub struct Response {
    pub header: ResponseHeader,
    pub body: Option<String>,
    pub status: usize,
}

/// A file-system action the runtime performs on the coordinator's
/// behalf, in the order handed out.
#[derive(Debug)]
pub enum IoAction {
    /// Ensure an append-mode writer exists for `path`, creating the file
    /// if absent.
    OpenAppend { path: String },
    /// Append `data` to the writer of `path` and flush it before the
    /// response is released.
    Append { path: String, data: String },
    /// Flush the writer of `path`.
    Flush { path: String },
}

/// The set of shard paths after one shard is begun: the path is present
/// exactly once whether or not it was open before.
pub open spec fn spec_begin_open(open: Set<Seq<char>>, path: Seq<char>) -> Set<Seq<char>> {
    open.insert(path)
}

/// The status a write request is answered with, given whether its
/// append went through: a payload succeeds exactly when its shard is
/// open and the append with its flush was performed; a handshake and a
/// cleanup always succeed; an explicit error echo never does.
pub open spec fn spec_write_status(
    open: Set<Seq<char>>,
    h: RequestHeader,
    performed: bool,
) -> int {
    match h {
        RequestHeader::Prepare => 200,
        RequestHeader::Payload { key } => if open.contains(key@) && performed {
            200
        } else {
            400
        },
        RequestHeader::Cleanup => 200,
        RequestHeader::Error => 400,
    }
}

/// The append a write request performs: the payload body goes to the
/// named shard when that shard is open; nothing is written otherwise.
pub open spec fn spec_write_append(open: Set<Seq<char>>, req: Request) -> Option<
    (Seq<char>, Seq<char>),
> {
    match req.header {
        RequestHeader::Payload { key } => if open.contains(key@) {
            Some((key@, req.body@))
        } else {
            None
        },
        _ => None,
    }
}

/// The lines appended to shard `p` when a sequence of (path, line)
/// payload requests is accepted in order against a fixed set of open
/// shards, each accepted append performed by the runtime.
pub open spec fn spec_appended_to(
    open: Set<Seq<char>>,
    rs: Seq<(Seq<char>, Seq<char>)>,
    p: Seq<char>,
) -> Seq<Seq<char>>
    decreases rs.len(),
{
    if rs.len() == 0 {
        Seq::empty()
    } else {
        spec_appended_to(open, rs.drop_last(), p) + if rs.last().0 == p && open.contains(p) {
            seq![rs.last().1]
        } else {
            Seq::empty()
        }
    }
}

/// Writes to a shard are serialized and never interleaved: when payload
/// requests for one open shard are accepted in any order, the shard
/// receives exactly one intact line per request, in acceptance order —
/// so drains by many workers of `M` lines each leave exactly
/// `workers * M` whole lines, none split, merged or dropped.
pub proof fn lemma_writes_not_interleaved(
    open: Set<Seq<char>>,
    rs: Seq<(Seq<char>, Seq<char>)>,
    p: Seq<char>,
)
    requires
        open.contains(p),
        forall|i: int| 0 <= i < rs.len() ==> (#[trigger] rs[i]).0 == p,
    ensures
        spec_appended_to(open, rs, p) == rs.map_values(|r: (Seq<char>, Seq<char>)| r.1),
        spec_appended_to(open, rs, p).len() == rs.len(),
    decreases rs.len(),
{
    if rs.len() == 0 {
        assert(spec_appended_to(open, rs, p) =~= rs.map_values(
            |r: (Seq<char>, Seq<char>)| r.1,
        ));
    } else {
        lemma_writes_not_interleaved(open, rs.drop_last(), p);
        assert(rs.last().0 == p);
        assert(spec_appended_to(open, rs, p) =~= rs.drop_last().map_values(
            |r: (Seq<char>, Seq<char>)| r.1,
        ).push(rs.last().1));
        assert(rs.map_values(|r: (Seq<char>, Seq<char>)| r.1) =~= rs.drop_last().map_values(
            |r: (Seq<char>, Seq<char>)| r.1,
        ).push(rs.last().1));
    }
}

/// Whatever mixture of shards a sequence of payload requests addresses,
/// an open shard `p` receives exactly the lines of the requests
/// addressed to it, in acceptance order: each accepted request appends
/// its one intact line, and requests for other shards leave `p`
/// untouched.
pub proof fn lemma_appends_are_per_shard(
    open: Set<Seq<char>>,
    rs: Seq<(Seq<char>, Seq<char>)>,
    p: Seq<char>,
)
    requires
        open.contains(p),
    ensures
        spec_appended_to(open, rs, p) == rs.filter(|r: (Seq<char>, Seq<char>)| r.0 == p)
            .map_values(|r: (Seq<char>, Seq<char>)| r.1),
    decreases rs.len(),
{
    reveal(Seq::filter);
    let pred = |r: (Seq<char>, Seq<char>)| r.0 == p;
    let line_of = |r: (Seq<char>, Seq<char>)| r.1;
    if rs.len() == 0 {
        assert(spec_appended_to(open, rs, p) =~= rs.filter(pred).map_values(line_of));
    } else {
        lemma_appends_are_per_shard(open, rs.drop_last(), p);
        if pred(rs.last()) {
            assert(rs.filter(pred) == rs.drop_last().filter(pred).push(rs.last()));
            assert(rs.filter(pred).map_values(line_of) =~= rs.drop_last().filter(
                pred,
            ).map_values(line_of).push(rs.last().1));
            assert(spec_appended_to(open, rs, p) =~= spec_appended_to(
                open,
                rs.drop_last(),
                p,
            ).push(rs.last().1));
        } else {
            assert(rs.filter(pred) == rs.drop_last().filter(pred));
            assert(spec_appended_to(open, rs, p) =~= spec_appended_to(open, rs.drop_last(), p));
        }
    }
}

/// Beginning a shard is idempotent: opening the same path twice leaves
/// the same single writer as opening it once — and since a path already
/// open is answered without any file-system action, no second writer and
/// no duplicate content can arise.
pub proof fn lemma_begin_writing_idempotent(open: Set<Seq<char>>, path: Seq<char>)
    ensures
        spec_begin_open(spec_begin_open(open, path), path) == spec_begin_open(open, path),
        spec_begin_open(open, path).contains(path),
{
    assert(spec_begin_open(spec_begin_open(open, path), path) =~= spec_begin_open(open, path));
}

/// The writer coordinator's state: its message counter and the paths of
/// the shards for which a durable append-mode writer exists.
pub struct Writer {
    message_id: usize,
    open_paths: Vec<String>,
}

impl Writer {
    /// The paths of the open shards, in opening order.
    pub closed spec fn spec_open_paths(self) -> Seq<Seq<char>> {
        strs_view(self.open_paths@)
    }

    /// The set of open shards.
    pub open spec fn open_set(self) -> Set<Seq<char>> {
        self.spec_open_paths().to_set()
    }

    /// The coordinator's message counter.
    pub closed spec fn spec_message_id(self) -> usize {
        self.message_id
    }

    /// Well-formedness: exactly one writer per shard path.
    pub closed spec fn wf(self) -> bool {
        forall|i: int, j: int|
            0 <= i < j < self.spec_open_paths().len() ==> self.spec_open_paths()[i]
                != self.spec_open_paths()[j]
    }

    /// Creates a coordinator with no open shard.
    pub fn new() -> (r: Writer)
        ensures
            r.wf(),
            r.spec_message_id() == 0,
            r.open_set() == Set::<Seq<char>>::empty(),
    {
        let r = Writer { message_id: 0, open_paths: Vec::new() };
        proof {
            assert(r.open_set() =~= Set::<Seq<char>>::empty());
        }
        r
    }

    /// The current value of the message counter.
    pub fn message_count(&self) -> (r: usize)
        ensures
            r == self.spec_message_id(),
    {
        self.message_id
    }

    /// The number of open shards.
    pub fn open_count(&self) -> (r: usize)
        ensures
            r == self.spec_open_paths().len(),
    {
        self.open_paths.len()
    }

    fn find_path(&self, filename: &str) -> (r: bool)
        requires
            self.wf(),
        ensures
            r == self.open_set().contains(filename@),
    {
        let n = self.open_paths.len();
        let mut i: usize = 0;
        while i < n
            invariant
                self.wf(),
                n == self.spec_open_paths().len(),
                i <= n,
                forall|k: int| 0 <= k < i ==> self.spec_open_paths()[k] != filename@,
            decreases n - i,
        {
            if str_eq(self.open_paths[i].as_str(), filename) {
                proof {
                    assert(self.spec_open_paths()[i as int] == filename@);
                    assert(self.spec_open_paths().contains(filename@));
                }
                return true;
            }
            i = i + 1;
        }
        assert(!self.spec_open_paths().contains(filename@));
        false
    }

    /// The file-system action a begin-writing request needs: an
    /// append-mode open, creating the file if absent, when no writer
    /// exists for the path yet; nothing at all when the shard is already
    /// open, so no second writer and no duplicate content can arise.
    pub fn begin_writing_action(&self, filename: &str) -> (r: Option<IoAction>)
        requires
            self.wf(),
        ensures
            self.open_set().contains(filename@) ==> r is None,
            !self.open_set().contains(filename@) ==> (r matches Some(a) && a matches
                IoAction::OpenAppend { path } && path@ == filename@),
    {
        if self.find_path(filename) {
            None
        } else {
            Some(IoAction::OpenAppend { path: String::from_str(filename) })
        }
    }

    /// Answers a begin-writing request with the outcome of its open:
    /// `opened` says whether a durable append-mode writer now exists for
    /// the path, because the shard was already open or because the
    /// runtime's open succeeded. On success the shard is recorded open,
    /// exactly once, and answered Ready; on a failed open nothing is
    /// recorded and the answer is an explicit error response, never an
    /// abort.
    pub fn begin_writing(&mut self, filename: String, opened: bool) -> (r: Response)
        requires
            old(self).wf(),
            old(self).spec_message_id() < usize::MAX,
        ensures
            final(self).wf(),
            final(self).spec_message_id() == old(self).spec_message_id() + 1,
            opened ==> final(self).open_set() == spec_begin_open(
                old(self).open_set(),
                filename@,
            ),
            opened ==> r.status == 200 && r.header is Ready && (r.body matches Some(b) && b@
                == "BeginWriting Finished"@),
            !opened ==> final(self).open_set() == old(self).open_set(),
            !opened ==> r.status == 400 && r.header is Error && r.body is None,
    {
        self.message_id = self.message_id + 1;
        proof {
            assert(self.spec_open_paths() == old(self).spec_open_paths());
        }
        if !opened {
            return Response { header: ResponseHeader::Error, body: None, status: 400 };
        }
        if self.find_path(filename.as_str()) {
            proof {
                assert(self.open_set().contains(filename@));
                assert_sets_equal!(
                    self.open_set() == spec_begin_open(old(self).open_set(), filename@),
                    a => {
                        if a == filename@ {
                            assert(self.open_set().contains(a));
                        }
                    }
                );
            }
        } else {
            let ghost old_paths = self.spec_open_paths();
            let ghost fview = filename@;
            self.open_paths.push(filename);
            proof {
                assert(self.spec_open_paths() =~= old_paths.push(fview));
                assert(old_paths == old(self).spec_open_paths());
                assert_sets_equal!(
                    self.open_set() == spec_begin_open(old(self).open_set(), fview),
                    a => {
                        let s_new = self.spec_open_paths();
                        if a == fview {
                            assert(s_new[old_paths.len() as int] == a);
                            assert(s_new.contains(a));
                        } else {
                            if old_paths.contains(a) {
                                let i = choose|i: int| 0 <= i < old_paths.len() && old_paths[i] == a;
                                assert(s_new[i] == a);
                                assert(s_new.contains(a));
                            }
                            if s_new.contains(a) {
                                let i = choose|i: int| 0 <= i < s_new.len() && s_new[i] == a;
                                assert(old_paths[i] == a);
                                assert(old_paths.contains(a));
                            }
                        }
                    }
                );
            }
        }
        Response {
            header: ResponseHeader::Ready,
            body: Some(String::from_str("BeginWriting Finished")),
            status: 200,
        }
    }

    /// The file-system action a write request needs: the append of the
    /// payload body, to be flushed before the response is released, when
    /// the named shard is open; nothing for any other request, and
    /// nothing for a payload whose shard was never begun.
    pub fn write_action(&self, message: &Request) -> (r: Option<IoAction>)
        requires
            self.wf(),
        ensures
            match spec_write_append(self.open_set(), *message) {
                Some(pd) => r matches Some(a) && a matches IoAction::Append { path, data }
                    && path@ == pd.0 && data@ == pd.1,
                None => r is None,
            },
    {
        match &message.header {
            RequestHeader::Payload { key } => {
                if self.find_path(key.as_str()) {
                    Some(IoAction::Append { path: key.clone(), data: message.body.clone() })
                } else {
                    None
                }
            },
            _ => None,
        }
    }

    /// Answers one write request with the outcome of its append:
    /// `performed` says whether the runtime completed the append and its
    /// flush, so a Finished answer implies the bytes are externally
    /// visible. A payload whose shard was never begun, or whose append
    /// failed, is answered with an explicit error response rather than
    /// repaired or aborted; handshake, cleanup and error echoes involve
    /// no I/O. The open set never changes.
    pub fn write_message(&mut self, message: Request, performed: bool) -> (r: Response)
        requires
            old(self).wf(),
            old(self).spec_message_id() < usize::MAX,
        ensures
            final(self).wf(),
            final(self).spec_message_id() == old(self).spec_message_id() + 1,
            final(self).open_set() == old(self).open_set(),
            r.body is None,
            r.status == spec_write_status(old(self).open_set(), message.header, performed),
            r.status == 200 <==> !(r.header is Error),
            message.header is Prepare ==> r.header is Ready,
            (message.header is Payload && r.status == 200) ==> r.header is Finished,
            message.header is Cleanup ==> r.header is Finished,
    {
        self.message_id = self.message_id + 1;
        proof {
            assert(self.spec_open_paths() == old(self).spec_open_paths());
        }
        match message.header {
            RequestHeader::Prepare => {
                Response { header: ResponseHeader::Ready, body: None, status: 200 }
            },
            RequestHeader::Payload { key } => {
                if self.find_path(key.as_str()) && performed {
                    Response { header: ResponseHeader::Finished, body: None, status: 200 }
                } else {
                    Response { header: ResponseHeader::Error, body: None, status: 400 }
                }
            },
            RequestHeader::Cleanup => {
                Response { header: ResponseHeader::Finished, body: None, status: 200 }
            },
            RequestHeader::Error => {
                Response { header: ResponseHeader::Error, body: None, status: 400 }
            },
        }
    }

    /// Ends a writing session: every open shard is flushed, in opening
    /// order, and the notification is acknowledged. The writers stay
    /// usable.
    pub fn end_writing(&mut self) -> (r: (Response, Vec<IoAction>))
        requires
            old(self).wf(),
            old(self).spec_message_id() < usize::MAX,
        ensures
            final(self).wf(),
            final(self).spec_message_id() == old(self).spec_message_id() + 1,
            final(self).open_set() == old(self).open_set(),
            r.0.status == 200,
            r.0.header is Finished,
            r.1@.len() == old(self).spec_open_paths().len(),
            forall|i: int|
                0 <= i < r.1@.len() ==> ((#[trigger] r.1@[i]) matches IoAction::Flush { path }
                    && path@ == old(self).spec_open_paths()[i]),
    {
        self.message_id = self.message_id + 1;
        proof {
            assert(self.spec_open_paths() == old(self).spec_open_paths());
        }
        let mut actions: Vec<IoAction> = Vec::new();
        let n = self.open_paths.len();
        let mut i: usize = 0;
        while i < n
            invariant
                self.wf(),
                self.spec_message_id() == old(self).spec_message_id() + 1,
                self.spec_open_paths() == old(self).spec_open_paths(),
                n == self.spec_open_paths().len(),
                i <= n,
                actions@.len() == i,
                forall|k: int|
                    0 <= k < i ==> ((#[trigger] actions@[k]) matches IoAction::Flush { path }
                        && path@ == self.spec_open_paths()[k]),
            decreases n - i,
        {
            let path = self.open_paths[i].clone();
            actions.push(IoAction::Flush { path });
            i = i + 1;
        }
        (
            Response { header: ResponseHeader::Finished, body: None, status: 200 },
            actions,
        )
    }
}

} // verus!
