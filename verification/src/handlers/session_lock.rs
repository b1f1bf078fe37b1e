//! Locking the session.
use vstd::prelude::*;

verus! {

/// The state of the session's lock. Locks and lock surfaces are known by
/// numbers.
#[derive(Debug, Clone, Copy, PartialEq, Eq)]
pub struct SessionLock {
    pub locked: bool,
    /// The lock that was accepted.
    pub accepted_lock: Option<u64>,
    /// The accepted lock, until its client has been told that the session is
    /// locked.
    pub pending_lock: Option<u64>,
    /// What the locking client shows.
    pub lock_surface: Option<u64>,
}

/// What is done with a lock surface.
#[derive(Debug, Clone, Copy, PartialEq, Eq)]
pub enum LockSurfaceAction {
    /// It is ignored.
    Ignore,
    /// It is configured, to a size if one is known, and shown.
    Configure(Option<(u32, u32)>),
}

impl SessionLock {
    /// There is an accepted lock exactly while the session is locked, and only
    /// then a pending one or a lock surface.
    pub open spec fn wf(self) -> bool {
        &&& self.locked <==> self.accepted_lock is Some
        &&& self.pending_lock is Some ==> self.pending_lock == self.accepted_lock
        &&& self.lock_surface is Some ==> self.locked
    }

    pub fn new() -> (r: Self)
        ensures
            r.wf(),
            r == (SessionLock {
                locked: false,
                accepted_lock: None,
                pending_lock: None,
                lock_surface: None,
            }),
    {
        SessionLock { locked: false, accepted_lock: None, pending_lock: None, lock_surface: None }
    }

    /// A client asks to lock the session. Accepted unless it is locked already;
    /// the client is told only once a locked frame was shown.
    pub fn lock(&mut self, lock: u64) -> (r: bool)
        requires
            old(self).wf(),
        ensures
            final(self).wf(),
            r == !old(self).locked,
            *final(self) == if old(self).locked {
                *old(self)
            } else {
                SessionLock {
                    locked: true,
                    accepted_lock: Some(lock),
                    pending_lock: Some(lock),
                    lock_surface: None,
                }
            },
    {
        if self.locked {
            return false;
        }
        self.accepted_lock = Some(lock);
        self.locked = true;
        self.lock_surface = None;
        self.pending_lock = Some(lock);
        true
    }

    /// A locked frame was shown: the lock whose client is to be told, if it has
    /// not been yet.
    pub fn take_pending(&mut self) -> (r: Option<u64>)
        requires
            old(self).wf(),
        ensures
            final(self).wf(),
            r == old(self).pending_lock,
            *final(self) == (SessionLock { pending_lock: None, ..*old(self) }),
    {
        let pending = self.pending_lock;
        self.pending_lock = None;
        pending
    }

    /// The locking client unlocks the session.
    pub fn unlock(&mut self)
        ensures
            final(self).wf(),
            *final(self) == (SessionLock {
                locked: false,
                accepted_lock: None,
                pending_lock: None,
                lock_surface: None,
            }),
    {
        self.locked = false;
        self.lock_surface = None;
        self.accepted_lock = None;
        self.pending_lock = None;
    }

    /// A client shows a lock surface. Only the accepted lock's counts.
    /// `output` says whether its output is there, and the output's logical
    /// size, if it has a mode.
    pub fn new_surface(
        &mut self,
        surface: u64,
        lock: u64,
        output: Option<Option<(i32, i32)>>,
    ) -> (r: LockSurfaceAction)
        requires
            old(self).wf(),
        ensures
            final(self).wf(),
            if old(self).accepted_lock != Some(lock) || output is None {
                r == LockSurfaceAction::Ignore && *final(self) == *old(self)
            } else {
                &&& *final(self) == (SessionLock { lock_surface: Some(surface), ..*old(self) })
                &&& r == LockSurfaceAction::Configure(
                    match output->0 {
                        None => None,
                        Some((w, h)) => Some(
                            (
                                if w < 0 {
                                    0u32
                                } else {
                                    w as u32
                                },
                                if h < 0 {
                                    0u32
                                } else {
                                    h as u32
                                },
                            ),
                        ),
                    },
                )
            },
    {
        match self.accepted_lock {
            None => {
                return LockSurfaceAction::Ignore;
            },
            Some(accepted) => {
                if accepted != lock {
                    return LockSurfaceAction::Ignore;
                }
            },
        }
        let mode = match output {
            None => {
                return LockSurfaceAction::Ignore;
            },
            Some(mode) => mode,
        };
        let size = match mode {
            None => None,
            Some((w, h)) => {
                let width: u32 = if w < 0 {
                    0
                } else {
                    w as u32
                };
                let height: u32 = if h < 0 {
                    0
                } else {
                    h as u32
                };
                Some((width, height))
            },
        };
        self.lock_surface = Some(surface);
        LockSurfaceAction::Configure(size)
    }
}

} // verus!
