use vstd::prelude::*;

verus! {

/// What an attach request for a connection id leads to.
#[derive(Clone, Copy, Debug, PartialEq, Eq, Structural)]
pub enum SessionOutcome {
    /// The id was new: its queues were created and registered, and the
    /// handshake must be started.
    Create,
    /// A session for the id exists with no transport attached: the transport
    /// joins its queues.
    Resume,
    /// A transport for the id is attached already.
    Conflict,
}

/// Why an IDE transport could not be attached.
#[derive(Clone, Copy, Debug, PartialEq, Eq, Structural)]
pub enum AttachError {
    /// A transport for the connection id is attached already.
    ConnectionIdInUse,
}

/// The text that rejects an attach on connection id `id`.
pub open spec fn in_use_text(id: Seq<char>) -> Seq<char> {
    "Connection ID "@ + id + " already in use."@
}

impl AttachError {
    /// The text that reports this error for connection id `id`.
    pub fn message(&self, id: &str) -> (r: String)
        ensures
            r@ == in_use_text(id@),
    {
        let mut s = "Connection ID ".to_owned();
        s.append(id);
        s.append(" already in use.");
        s
    }
}

#[derive(Clone, Copy, Debug, PartialEq, Eq, Structural)]
pub enum RegistryError {
    /// No session is registered under the id.
    NotFound,
}

/// One registered session: the queues of its IDE side and of its client side,
/// and whether an IDE transport is attached.
pub struct Session<Q> {
    pub id: String,
    pub ide: Q,
    pub client: Q,
    pub attached: bool,
}

/// A session as plain values.
pub struct SessionView<Q> {
    pub ide: Q,
    pub client: Q,
    pub attached: bool,
}

impl<Q> View for Session<Q> {
    type V = SessionView<Q>;

    open spec fn view(&self) -> SessionView<Q> {
        SessionView { ide: self.ide, client: self.client, attached: self.attached }
    }
}

/// The sessions of a list, keyed by connection id.
pub open spec fn sessions_map<Q>(s: Seq<Session<Q>>) -> Map<Seq<char>, SessionView<Q>>
    decreases s.len(),
{
    if s.len() == 0 {
        Map::empty()
    } else {
        sessions_map(s.drop_last()).insert(s.last().id@, s.last()@)
    }
}

/// No connection id occurs twice.
pub open spec fn ids_unique<Q>(s: Seq<Session<Q>>) -> bool {
    forall|i: int, j: int| 0 <= i < j < s.len() ==> s[i].id@ != s[j].id@
}

/// The decision for an attach request on id `k`.
pub open spec fn begin_outcome<Q>(r: Map<Seq<char>, SessionView<Q>>, k: Seq<char>) -> SessionOutcome {
    if !r.contains_key(k) {
        SessionOutcome::Create
    } else if r[k].attached {
        SessionOutcome::Conflict
    } else {
        SessionOutcome::Resume
    }
}

/// The registry after an attach request on id `k`, where `ide` and `client`
/// are the queues offered for a new session.
pub open spec fn begin_next<Q>(
    r: Map<Seq<char>, SessionView<Q>>,
    k: Seq<char>,
    ide: Q,
    client: Q,
) -> Map<Seq<char>, SessionView<Q>> {
    if !r.contains_key(k) {
        r.insert(k, SessionView { ide, client, attached: true })
    } else if r[k].attached {
        r
    } else {
        r.insert(k, SessionView { attached: true, ..r[k] })
    }
}

/// The registry after the transport of id `k` went away.
pub open spec fn detach_next<Q>(r: Map<Seq<char>, SessionView<Q>>, k: Seq<char>) -> Map<
    Seq<char>,
    SessionView<Q>,
> {
    if r.contains_key(k) {
        r.insert(k, SessionView { attached: false, ..r[k] })
    } else {
        r
    }
}

/// An id never seen before is created on its first attach; a second attach
/// made while the first transport is still attached is refused and changes
/// nothing.
pub proof fn lemma_first_attach_creates<Q>(
    r: Map<Seq<char>, SessionView<Q>>,
    k: Seq<char>,
    ide: Q,
    client: Q,
    ide2: Q,
    client2: Q,
)
    requires
        !r.contains_key(k),
    ensures
        begin_outcome(r, k) == SessionOutcome::Create,
        begin_next(r, k, ide, client)[k] == (SessionView { ide, client, attached: true }),
        begin_outcome(begin_next(r, k, ide, client), k) == SessionOutcome::Conflict,
        begin_next(begin_next(r, k, ide, client), k, ide2, client2) == begin_next(
            r,
            k,
            ide,
            client,
        ),
{
}

/// Once a session exists, no attach or detach on any id removes it or
/// replaces its queues, so no later attach on its id is a `Create`: the
/// handshake of a session is started once.
pub proof fn lemma_session_created_once<Q>(
    r: Map<Seq<char>, SessionView<Q>>,
    k: Seq<char>,
    j: Seq<char>,
    ide: Q,
    client: Q,
)
    requires
        r.contains_key(k),
    ensures
        begin_outcome(r, k) != SessionOutcome::Create,
        begin_next(r, j, ide, client).contains_key(k),
        begin_next(r, j, ide, client)[k].ide == r[k].ide,
        begin_next(r, j, ide, client)[k].client == r[k].client,
        detach_next(r, j).contains_key(k),
        detach_next(r, j)[k].ide == r[k].ide,
        detach_next(r, j)[k].client == r[k].client,
{
}

/// After the transport of a session goes away, the next attach on its id
/// resumes it with the queues it had, and starts no second handshake.
pub proof fn lemma_attach_after_detach_resumes<Q>(
    r: Map<Seq<char>, SessionView<Q>>,
    k: Seq<char>,
    ide: Q,
    client: Q,
)
    requires
        r.contains_key(k),
    ensures
        begin_outcome(detach_next(r, k), k) == SessionOutcome::Resume,
        begin_next(detach_next(r, k), k, ide, client) == r.insert(
            k,
            SessionView { attached: true, ..r[k] },
        ),
{
    assert(begin_next(detach_next(r, k), k, ide, client) =~= r.insert(
        k,
        SessionView { attached: true, ..r[k] },
    ));
}

proof fn lemma_sessions_map_domain<Q>(s: Seq<Session<Q>>, k: Seq<char>)
    ensures
        sessions_map(s).contains_key(k) <==> exists|i: int| 0 <= i < s.len() && s[i].id@ == k,
    decreases s.len(),
{
    if s.len() > 0 {
        lemma_sessions_map_domain(s.drop_last(), k);
        if sessions_map(s).contains_key(k) && s.last().id@ != k {
            let i = choose|i: int| 0 <= i < s.drop_last().len() && s.drop_last()[i].id@ == k;
            assert(s[i].id@ == k);
        }
        if exists|i: int| 0 <= i < s.len() && s[i].id@ == k {
            let i = choose|i: int| 0 <= i < s.len() && s[i].id@ == k;
            if i < s.len() - 1 {
                assert(s.drop_last()[i].id@ == k);
            }
        }
    }
}

proof fn lemma_sessions_map_index<Q>(s: Seq<Session<Q>>, i: int)
    requires
        ids_unique(s),
        0 <= i < s.len(),
    ensures
        sessions_map(s).contains_key(s[i].id@),
        sessions_map(s)[s[i].id@] == s[i]@,
    decreases s.len(),
{
    if i < s.len() - 1 {
        lemma_sessions_map_index(s.drop_last(), i);
    }
}

proof fn lemma_sessions_map_update<Q>(s: Seq<Session<Q>>, i: int, x: Session<Q>)
    requires
        ids_unique(s),
        0 <= i < s.len(),
        x.id@ == s[i].id@,
    ensures
        sessions_map(s.update(i, x)) == sessions_map(s).insert(x.id@, x@),
    decreases s.len(),
{
    let t = s.update(i, x);
    if i == s.len() - 1 {
        assert(t.drop_last() =~= s.drop_last());
        lemma_sessions_map_domain(s.drop_last(), x.id@);
        assert(sessions_map(s).insert(x.id@, x@) =~= sessions_map(s.drop_last()).insert(x.id@, x@));
    } else {
        assert(t.drop_last() =~= s.drop_last().update(i, x));
        lemma_sessions_map_update(s.drop_last(), i, x);
        assert(sessions_map(t) =~= sessions_map(s).insert(x.id@, x@));
    }
}

/// The sessions of the process, keyed by connection id. Each session is
/// registered once, with its IDE-side and client-side queues together, and is
/// never removed: a transport that goes away leaves it for a later attach.
pub struct SessionRegistry<Q> {
    sessions: Vec<Session<Q>>,
}

impl<Q> View for SessionRegistry<Q> {
    type V = Map<Seq<char>, SessionView<Q>>;

    closed spec fn view(&self) -> Map<Seq<char>, SessionView<Q>> {
        sessions_map(self.sessions@)
    }
}

impl<Q> SessionRegistry<Q> {
    pub closed spec fn wf(&self) -> bool {
        ids_unique(self.sessions@)
    }

    /// A registry with no session.
    pub fn new() -> (r: SessionRegistry<Q>)
        ensures
            r.wf(),
            r@ == Map::<Seq<char>, SessionView<Q>>::empty(),
    {
        SessionRegistry { sessions: Vec::new() }
    }

    /// The position of the session registered under `key`.
    fn find(&self, key: &String) -> (r: Option<usize>)
        requires
            self.wf(),
        ensures
            match r {
                Some(i) => i < self.sessions@.len() && self.sessions@[i as int].id@ == key@,
                None => !self@.contains_key(key@),
            },
    {
        let mut i: usize = 0;
        while i < self.sessions.len()
            invariant
                i <= self.sessions@.len(),
                forall|j: int| 0 <= j < i ==> self.sessions@[j].id@ != key@,
            decreases self.sessions@.len() - i,
        {
            if self.sessions[i].id == *key {
                return Some(i);
            }
            i = i + 1;
        }
        proof {
            lemma_sessions_map_domain(self.sessions@, key@);
        }
        None
    }

    /// Decides an attach request for connection id `id` in one step. A new id
    /// gets a session with the queues `ide` and `client` and is marked
    /// attached (`Create`); an existing detached session is marked attached and
    /// keeps its queues (`Resume`); an attached one is left alone (`Conflict`).
    /// Queues not taken are dropped.
    pub fn try_begin_session(&mut self, id: &str, ide: Q, client: Q) -> (r: SessionOutcome)
        requires
            old(self).wf(),
        ensures
            final(self).wf(),
            r == begin_outcome(old(self)@, id@),
            final(self)@ == begin_next(old(self)@, id@, ide, client),
    {
        let key = id.to_owned();
        match self.find(&key) {
            None => {
                let ghost s = self.sessions@;
                let x = Session { id: key, ide, client, attached: true };
                self.sessions.push(x);
                proof {
                    assert(self.sessions@.drop_last() =~= s);
                    assert forall|i: int, j: int|
                        0 <= i < j < self.sessions@.len() implies self.sessions@[i].id@
                        != self.sessions@[j].id@ by {
                        if j == s.len() {
                            lemma_sessions_map_domain(s, id@);
                            assert(s[i].id@ == self.sessions@[i].id@);
                        }
                    }
                }
                SessionOutcome::Create
            },
            Some(i) => {
                proof {
                    lemma_sessions_map_index(self.sessions@, i as int);
                }
                if self.sessions[i].attached {
                    SessionOutcome::Conflict
                } else {
                    let ghost s = self.sessions@;
                    self.sessions[i].attached = true;
                    proof {
                        assert(self.sessions@ =~= s.update(i as int, self.sessions@[i as int]));
                        lemma_sessions_map_update(s, i as int, self.sessions@[i as int]);
                    }
                    SessionOutcome::Resume
                }
            },
        }
    }

    /// Attaches an IDE transport to connection id `id`, as
    /// `try_begin_session` decides. `Ok(true)`: the session is new, and its
    /// handshake must be started on the queues `ide`; `Ok(false)`: the
    /// transport joins the existing session, whose handshake was started
    /// before. A conflict is an error and changes nothing.
    pub fn attach_ide_transport(&mut self, id: &str, ide: Q, client: Q) -> (r: Result<
        bool,
        AttachError,
    >)
        requires
            old(self).wf(),
        ensures
            final(self).wf(),
            final(self)@ == begin_next(old(self)@, id@, ide, client),
            r == Ok::<bool, AttachError>(true) <==> begin_outcome(old(self)@, id@)
                == SessionOutcome::Create,
            r == Ok::<bool, AttachError>(false) <==> begin_outcome(old(self)@, id@)
                == SessionOutcome::Resume,
            r == Err::<bool, AttachError>(AttachError::ConnectionIdInUse) <==> begin_outcome(
                old(self)@,
                id@,
            ) == SessionOutcome::Conflict,
    {
        match self.try_begin_session(id, ide, client) {
            SessionOutcome::Create => Ok(true),
            SessionOutcome::Resume => Ok(false),
            SessionOutcome::Conflict => Err(AttachError::ConnectionIdInUse),
        }
    }

    /// Records that the IDE transport of connection id `id` went away. The
    /// session and its queues stay registered.
    pub fn end_attach(&mut self, id: &str)
        requires
            old(self).wf(),
        ensures
            final(self).wf(),
            final(self)@ == detach_next(old(self)@, id@),
    {
        let key = id.to_owned();
        if let Some(i) = self.find(&key) {
            proof {
                lemma_sessions_map_index(self.sessions@, i as int);
            }
            let ghost s = self.sessions@;
            self.sessions[i].attached = false;
            proof {
                assert(self.sessions@ =~= s.update(i as int, self.sessions@[i as int]));
                lemma_sessions_map_update(s, i as int, self.sessions@[i as int]);
            }
        }
    }

    /// The IDE-side queues of connection id `id`.
    pub fn get_ide_queues(&self, id: &str) -> (r: Result<&Q, RegistryError>)
        requires
            self.wf(),
        ensures
            match r {
                Ok(q) => self@.contains_key(id@) && *q == self@[id@].ide,
                Err(e) => !self@.contains_key(id@) && e == RegistryError::NotFound,
            },
    {
        let key = id.to_owned();
        match self.find(&key) {
            Some(i) => {
                proof {
                    lemma_sessions_map_index(self.sessions@, i as int);
                }
                Ok(&self.sessions[i].ide)
            },
            None => Err(RegistryError::NotFound),
        }
    }

    /// The client-side queues of connection id `id`.
    pub fn get_client_queues(&self, id: &str) -> (r: Result<&Q, RegistryError>)
        requires
            self.wf(),
        ensures
            match r {
                Ok(q) => self@.contains_key(id@) && *q == self@[id@].client,
                Err(e) => !self@.contains_key(id@) && e == RegistryError::NotFound,
            },
    {
        let key = id.to_owned();
        match self.find(&key) {
            Some(i) => {
                proof {
                    lemma_sessions_map_index(self.sessions@, i as int);
                }
                Ok(&self.sessions[i].client)
            },
            None => Err(RegistryError::NotFound),
        }
    }
}

} // verus!
