//! The daemon's connection rules: the two-state session machine — a client
//! first registers under a unique service name, then may only send log
//! records — the registry of connected clients, the control-plane queries
//! over it, and the length check of the framed transport.

use vstd::prelude::*;

use crate::log_message::LogMessage;

verus! {

/// A decoded incoming frame body: a call whose parameters decoded as one
/// string, a one-way message whose body decoded as a log record, or any
/// other shape.
pub enum RpcBody {
    Call(Option<String>),
    OneWay(Option<LogMessage>),
    Other,
}

/// A decoded incoming frame.
pub struct RpcFrame {
    pub endpoint: String,
    pub body: RpcBody,
}

/// The registry of connected clients: each authorized service name bound to
/// the handle of its session's writer half.
pub struct ClientRegistry {
    pub entries: Vec<(String, u64)>,
}

impl ClientRegistry {
    pub open spec fn has_name(self, name: Seq<char>) -> bool {
        exists|p: int|
            0 <= p < self.entries@.len() && (#[trigger] self.entries@[p]).0@ == name
    }

    /// Service names are unique across connected clients.
    pub open spec fn wf(self) -> bool {
        forall|p: int, q: int|
            0 <= p < q < self.entries@.len() ==> (#[trigger] self.entries@[p]).0@ != (
            #[trigger] self.entries@[q]).0@
    }

    pub fn new() -> (r: ClientRegistry)
        ensures
            r.wf(),
            r.entries@.len() == 0,
    {
        ClientRegistry { entries: Vec::new() }
    }

    /// Whether `name` is already registered.
    pub fn contains(&self, name: &String) -> (r: bool)
        ensures
            r == self.has_name(name@),
    {
        let mut p: usize = 0;
        while p < self.entries.len()
            invariant
                p <= self.entries@.len(),
                forall|q: int| 0 <= q < p ==> (#[trigger] self.entries@[q]).0@ != name@,
        decreases self.entries@.len() - p,
        {
            if self.entries[p].0.eq(name) {
                proof {
                    assert(self.entries@[p as int].0@ == name@);
                }
                return true;
            }
            p = p + 1;
        }
        proof {
            if self.has_name(name@) {
                let w = choose|p: int|
                    0 <= p < self.entries@.len() && (#[trigger] self.entries@[p]).0@ == name@;
                assert(self.entries@[w].0@ != name@);
            }
        }
        false
    }

    /// Admit a new client: succeeds and binds the handle exactly when the
    /// name is free.
    pub fn insert(&mut self, name: String, handle: u64) -> (r: bool)
        requires
            old(self).wf(),
        ensures
            final(self).wf(),
            r == !old(self).has_name(name@),
            r ==> final(self).entries@ == old(self).entries@.push((name, handle)),
            !r ==> final(self).entries@ == old(self).entries@,
            final(self).has_name(name@),
    {
        if self.contains(&name) {
            false
        } else {
            let ghost pre = self.entries@;
            self.entries.push((name, handle));
            proof {
                assert(self.entries@.last().0@ == name@);
                assert forall|p: int, q: int|
                    0 <= p < q < self.entries@.len() implies (#[trigger] self.entries@[p]).0@ != (
                    #[trigger] self.entries@[q]).0@ by {
                    if q == self.entries@.len() - 1 {
                        assert(self.entries@[p] == pre[p]);
                        if self.entries@[p].0@ == name@ {
                            assert(pre[p].0@ == name@);
                        }
                    } else {
                        assert(self.entries@[p] == pre[p]);
                        assert(self.entries@[q] == pre[q]);
                    }
                }
            }
            true
        }
    }

    /// Drop a disconnected client's binding.
    pub fn remove(&mut self, name: &String)
        requires
            old(self).wf(),
        ensures
            final(self).wf(),
            !final(self).has_name(name@),
            !old(self).has_name(name@) ==> final(self).entries@ == old(self).entries@,
            old(self).has_name(name@) ==> exists|idx: int|
                0 <= idx < old(self).entries@.len() && (#[trigger] old(self).entries@[idx]).0@
                    == name@ && final(self).entries@ == old(self).entries@.remove(idx),
    {
        let ghost orig = self.entries@;
        let mut p: usize = 0;
        while p < self.entries.len()
            invariant
                p <= self.entries@.len(),
                self.entries@ == orig,
                orig == old(self).entries@,
                forall|a: int, b: int|
                    0 <= a < b < orig.len() ==> (#[trigger] orig[a]).0@ != (#[trigger] orig[b]).0@,
                forall|q: int| 0 <= q < p ==> (#[trigger] orig[q]).0@ != name@,
            decreases self.entries@.len() - p,
        {
            if self.entries[p].0.eq(name) {
                let ghost hit = p as int;
                self.entries.remove(p);
                proof {
                    assert(orig[hit].0@ == name@);
                    assert(self.entries@ == orig.remove(hit));
                    assert forall|a: int, b: int|
                        0 <= a < b < self.entries@.len() implies (#[trigger] self.entries@[a]).0@
                        != (#[trigger] self.entries@[b]).0@ by {
                        let a0 = if a < hit {
                            a
                        } else {
                            a + 1
                        };
                        let b0 = if b < hit {
                            b
                        } else {
                            b + 1
                        };
                        assert(self.entries@[a] == orig[a0]);
                        assert(self.entries@[b] == orig[b0]);
                    }
                    assert(!self.has_name(name@)) by {
                        if self.has_name(name@) {
                            let w = choose|q: int|
                                0 <= q < self.entries@.len() && (#[trigger] self.entries@[q]).0@
                                    == name@;
                            let w0 = if w < hit {
                                w
                            } else {
                                w + 1
                            };
                            assert(self.entries@[w] == orig[w0]);
                            assert(orig[hit].0@ == name@);
                            if w0 != hit {
                                assert(orig[w0].0@ != orig[hit].0@);
                            }
                        }
                    }
                    assert forall|a: int|
                        0 <= a < self.entries@.len() implies old(self).entries@.contains(
                        #[trigger] self.entries@[a],
                    ) by {
                        let a0 = if a < hit {
                            a
                        } else {
                            a + 1
                        };
                        assert(self.entries@[a] == old(self).entries@[a0]);
                    }
                    assert forall|q: int|
                        0 <= q < old(self).entries@.len() && (#[trigger] old(self).entries@[q]).0@
                            != name@ implies self.entries@.contains(old(self).entries@[q]) by {
                        if q < hit {
                            assert(self.entries@[q] == old(self).entries@[q]);
                        } else {
                            assert(q != hit);
                            assert(self.entries@[q - 1] == old(self).entries@[q]);
                        }
                    }
                }
                return ;
            }
            p = p + 1;
        }
        proof {
            if self.has_name(name@) {
                let w = choose|q: int|
                    0 <= q < self.entries@.len() && (#[trigger] self.entries@[q]).0@ == name@;
                assert(orig[w].0@ != name@);
            }
            assert forall|a: int|
                0 <= a < self.entries@.len() implies old(self).entries@.contains(
                #[trigger] self.entries@[a],
            ) by {
                assert(self.entries@[a] == old(self).entries@[a]);
            }
            assert forall|q: int|
                0 <= q < old(self).entries@.len() && (#[trigger] old(self).entries@[q]).0@ != name@
                    implies self.entries@.contains(old(self).entries@[q]) by {
                assert(self.entries@[q] == old(self).entries@[q]);
            }
        }
    }

    /// The handle bound to `name`, if any.
    pub fn get(&self, name: &String) -> (r: Option<u64>)
        requires
            self.wf(),
        ensures
            r.is_some() == self.has_name(name@),
            r.is_some() ==> exists|p: int|
                0 <= p < self.entries@.len() && (#[trigger] self.entries@[p]).0@ == name@
                    && self.entries@[p].1 == r.unwrap(),
    {
        let mut p: usize = 0;
        while p < self.entries.len()
            invariant
                p <= self.entries@.len(),
                forall|q: int| 0 <= q < p ==> (#[trigger] self.entries@[q]).0@ != name@,
            decreases self.entries@.len() - p,
        {
            if self.entries[p].0.eq(name) {
                proof {
                    assert(self.entries@[p as int].0@ == name@);
                }
                return Some(self.entries[p].1);
            }
            p = p + 1;
        }
        proof {
            if self.has_name(name@) {
                let w = choose|q: int|
                    0 <= q < self.entries@.len() && (#[trigger] self.entries@[q]).0@ == name@;
                assert(self.entries@[w].0@ != name@);
            }
        }
        None
    }

    /// Snapshot of the registered service names, in registration order.
    pub fn names(&self) -> (r: Vec<String>)
        ensures
            r@.len() == self.entries@.len(),
            forall|p: int| 0 <= p < r@.len() ==> (#[trigger] r@[p])@ == self.entries@[p].0@,
    {
        let mut out: Vec<String> = Vec::new();
        let mut p: usize = 0;
        while p < self.entries.len()
            invariant
                p <= self.entries@.len(),
                out@.len() == p,
                forall|q: int| 0 <= q < p ==> (#[trigger] out@[q])@ == self.entries@[q].0@,
            decreases self.entries@.len() - p,
        {
            out.push(self.entries[p].0.clone());
            p = p + 1;
        }
        out
    }
}

/// Outcome of the registration step of a new session.
pub enum AuthOutcome {
    /// The client is admitted under this service name.
    Registered(String),
    /// The first frame's endpoint was not the registration endpoint.
    RejectWrongEndpoint,
    /// The first frame was not a call.
    RejectNotCall,
    /// The call's parameters did not decode to a service name.
    RejectBadBody,
    /// The name is taken; the peer is told so and the session closes.
    RejectAlreadyRegistered,
    /// The peer disconnected before registering.
    Disconnected,
}

/// The registration step: the first frame of a session must be a call of
/// the `register` endpoint carrying a free service name; exactly then the
/// client enters the registry, bound to `handle`.
pub fn authorize(registry: &mut ClientRegistry, handle: u64, frame: Option<RpcFrame>) -> (r:
    AuthOutcome)
    requires
        old(registry).wf(),
    ensures
        final(registry).wf(),
        ({
            match frame {
                Option::None => r == AuthOutcome::Disconnected && final(registry).entries@ == old(registry).entries@,
                Option::Some(f) => {
                    if f.endpoint@ != "register"@ {
                        r == AuthOutcome::RejectWrongEndpoint && final(registry).entries@ == old(registry).entries@
                    } else {
                        match f.body {
                            RpcBody::Call(Option::Some(name)) => {
                                if old(registry).has_name(name@) {
                                    r == AuthOutcome::RejectAlreadyRegistered && final(registry).entries@ == old(registry).entries@
                                } else {
                                    r == AuthOutcome::Registered(name) && final(registry).entries@
                                        == old(registry).entries@.push((name, handle))
                                }
                            },
                            RpcBody::Call(Option::None) => r == AuthOutcome::RejectBadBody && final(registry).entries@ == old(registry).entries@,
                            _ => r == AuthOutcome::RejectNotCall && final(registry).entries@ == old(registry).entries@,
                        }
                    }
                },
            }
        }),
{
    match frame {
        None => AuthOutcome::Disconnected,
        Some(f) => {
            let register_name: String = String::from_str("register");
            if !f.endpoint.eq(&register_name) {
                proof {
                    assert(f.endpoint@ != "register"@);
                }
                return AuthOutcome::RejectWrongEndpoint;
            }
            proof {
                assert(f.endpoint@ == "register"@);
            }
            match f.body {
                RpcBody::Call(Some(name)) => {
                    let admitted = registry.insert(name.clone(), handle);
                    if admitted {
                        AuthOutcome::Registered(name)
                    } else {
                        AuthOutcome::RejectAlreadyRegistered
                    }
                },
                RpcBody::Call(None) => AuthOutcome::RejectBadBody,
                _ => AuthOutcome::RejectNotCall,
            }
        },
    }
}

/// What a running session does with one frame.
pub enum SessionStep {
    /// A valid record: forward it to the dispatcher.
    Forward(LogMessage),
    /// A protocol violation: answer with an internal error, then close.
    RespondErrorAndClose,
    /// The peer disconnected: close silently.
    Close,
}

/// The running state of a session: only one-way `log` messages carrying a
/// record are forwarded; anything else ends the session.
pub fn client_step(frame: Option<RpcFrame>) -> (r: SessionStep)
    ensures
        ({
            match frame {
                Option::None => r == SessionStep::Close,
                Option::Some(f) => {
                    if f.endpoint@ != "log"@ {
                        r == SessionStep::RespondErrorAndClose
                    } else {
                        match f.body {
                            RpcBody::OneWay(Option::Some(m)) => r == SessionStep::Forward(m),
                            _ => r == SessionStep::RespondErrorAndClose,
                        }
                    }
                },
            }
        }),
{
    match frame {
        None => SessionStep::Close,
        Some(f) => {
            let log_name: String = String::from_str("log");
            if !f.endpoint.eq(&log_name) {
                proof {
                    assert(f.endpoint@ != "log"@);
                }
                return SessionStep::RespondErrorAndClose;
            }
            proof {
                assert(f.endpoint@ == "log"@);
            }
            match f.body {
                RpcBody::OneWay(Some(m)) => SessionStep::Forward(m),
                _ => SessionStep::RespondErrorAndClose,
            }
        },
    }
}

/// An event the dispatcher publishes on the control plane.
pub enum Event {
    /// A rotation finished; the payload is the rotated file's path.
    Rotated(Vec<u8>),
}

/// The control plane's queries over the client registry.
pub struct LoggerService;

impl LoggerService {
    /// The `clients` query: the registered service names.
    pub fn clients(registry: &ClientRegistry) -> (r: Vec<String>)
        ensures
            r@.len() == registry.entries@.len(),
            forall|p: int| 0 <= p < r@.len() ==> (#[trigger] r@[p])@ == registry.entries@[p].0@,
    {
        registry.names()
    }

    /// The `set_log_level` lookup: the writer-half handle of the addressed
    /// service, if it is connected.
    pub fn set_log_level_target(registry: &ClientRegistry, service_name: &String) -> (r: Option<
        u64,
    >)
        requires
            registry.wf(),
        ensures
            r.is_some() == registry.has_name(service_name@),
            r.is_some() ==> exists|p: int|
                0 <= p < registry.entries@.len() && (#[trigger] registry.entries@[p]).0@
                    == service_name@ && registry.entries@[p].1 == r.unwrap(),
    {
        registry.get(service_name)
    }
}

/// The framed transport's length prefix, read little-endian: the total
/// frame length includes the four prefix bytes themselves. Returns the
/// remaining body length, or nothing when the prefix is no plausible
/// length: shorter than the prefix itself, or past the signed 32-bit range.
pub fn frame_body_len(b0: u8, b1: u8, b2: u8, b3: u8) -> (r: Option<u32>)
    ensures
        ({
            let v = b0 + 256 * (b1 + 256 * (b2 + 256 * b3));
            if 4 <= v < 0x8000_0000 {
                r == Some((v - 4) as u32)
            } else {
                r == Option::<u32>::None
            }
        }),
{
    let v: u32 = b0 as u32 + 256 * (b1 as u32 + 256 * (b2 as u32 + 256 * b3 as u32));
    if v >= 4 && v < 0x8000_0000 {
        Some(v - 4)
    } else {
        None
    }
}

} // verus!
