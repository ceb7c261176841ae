//! The guard against a second running copy: a socket that only one can bind.

use vstd::prelude::*;
use vstd::string::*;
use vstd::utf8::*;

use crate::paths;
#[allow(unused_imports)]
use crate::text::Text;

verus! {

/// Why the guard could not be had.
#[derive(Debug, Clone)]
pub enum SingleInstanceError {
    MissingRuntimeDir,
    AlreadyRunning,
    /// The socket or its file made trouble, with the reason.
    Io(String),
}

impl SingleInstanceError {
    /// What to tell the user.
    pub open spec fn text(self) -> Text {
        match self {
            SingleInstanceError::MissingRuntimeDir => "XDG_RUNTIME_DIR is not set"@,
            SingleInstanceError::AlreadyRunning => "another instance is already running"@,
            SingleInstanceError::Io(err) => "single-instance guard failed: "@ + err@,
        }
    }

    /// What to tell the user.
    pub fn message(&self) -> (message: String)
        ensures
            message@ == self.text(),
    {
        match self {
            SingleInstanceError::MissingRuntimeDir => "XDG_RUNTIME_DIR is not set".to_owned(),
            SingleInstanceError::AlreadyRunning => {
                "another instance is already running".to_owned()
            },
            SingleInstanceError::Io(err) => "single-instance guard failed: ".to_owned().concat(
                err.as_str(),
            ),
        }
    }
}

/// The guard of one running copy.
#[derive(Debug)]
pub struct SingleInstance {
    path: Vec<u8>,
}

/// How an attempt to bind the socket ended.
#[derive(Debug)]
pub enum BindOutcome {
    Bound,
    /// Another socket has the address, with the reason as it is told.
    AddressInUse(String),
    Failed(String),
}

/// What to do next for the guard.
#[derive(Debug)]
pub enum AcquireStep {
    /// The guard is held.
    Held,
    /// See whether anyone listens on the socket.
    ProbeSocket,
    /// Remove the file that a dead copy left.
    RemoveStale,
    /// Bind the socket a second time.
    BindAgain,
    Refused(SingleInstanceError),
}

impl View for SingleInstance {
    type V = Seq<u8>;

    /// The path of the socket.
    closed spec fn view(&self) -> Seq<u8> {
        self.path@
    }
}

/// The path of the guard's socket.
pub open spec fn guard_path(runtime_dir: Seq<u8>, name: Text) -> Seq<u8> {
    paths::joined(runtime_dir, encode_utf8(name + ".sock"@))
}

/// What follows an attempt to bind the socket, the first one or the one `again`.
pub open spec fn after_bind(outcome: BindOutcome, again: bool) -> AcquireStep {
    match outcome {
        BindOutcome::Bound => AcquireStep::Held,
        BindOutcome::AddressInUse(err) => if again {
            AcquireStep::Refused(SingleInstanceError::Io(err))
        } else {
            AcquireStep::ProbeSocket
        },
        BindOutcome::Failed(err) => AcquireStep::Refused(SingleInstanceError::Io(err)),
    }
}

/// What follows a look at the socket.
pub open spec fn after_probe(live: bool) -> AcquireStep {
    if live {
        AcquireStep::Refused(SingleInstanceError::AlreadyRunning)
    } else {
        AcquireStep::RemoveStale
    }
}

/// What follows the removal of a stale socket.
pub open spec fn after_removal(failure: Option<String>) -> AcquireStep {
    match failure {
        Some(err) => AcquireStep::Refused(SingleInstanceError::Io(err)),
        None => AcquireStep::BindAgain,
    }
}

/// Where the steps lead, with the outcome of each as far as it is taken.
pub open spec fn guard_outcome(
    first: BindOutcome,
    live: bool,
    removal: Option<String>,
    second: BindOutcome,
) -> AcquireStep {
    match after_bind(first, false) {
        AcquireStep::ProbeSocket => match after_probe(live) {
            AcquireStep::RemoveStale => match after_removal(removal) {
                AcquireStep::BindAgain => after_bind(second, true),
                step => step,
            },
            step => step,
        },
        step => step,
    }
}

/// The steps come to an end. A second copy is turned away just where someone listens on
/// the socket that is in use, and the guard is held just where the socket was bound, at
/// once or after a stale one was removed. Any other end tells the reason of the step that
/// failed.
pub proof fn law_guard(
    first: BindOutcome,
    live: bool,
    removal: Option<String>,
    second: BindOutcome,
)
    ensures
        ({
            let end = guard_outcome(first, live, removal, second);
            &&& end is Held || end is Refused
            &&& end is Held <==> first is Bound || (first is AddressInUse && !live && removal is None
                && second is Bound)
            &&& end == AcquireStep::Refused(SingleInstanceError::AlreadyRunning) <==> first
                is AddressInUse && live
            &&& first matches BindOutcome::Failed(reason) ==> end == AcquireStep::Refused(
                SingleInstanceError::Io(reason),
            )
            &&& first is AddressInUse && !live && removal is Some ==> end == AcquireStep::Refused(
                SingleInstanceError::Io(removal.unwrap()),
            )
            &&& first is AddressInUse && !live && removal is None ==> match second {
                BindOutcome::Bound => true,
                BindOutcome::AddressInUse(reason) => end == AcquireStep::Refused(
                    SingleInstanceError::Io(reason),
                ),
                BindOutcome::Failed(reason) => end == AcquireStep::Refused(
                    SingleInstanceError::Io(reason),
                ),
            }
        }),
{
}

impl SingleInstance {
    /// The guard for a name, still to be bound.
    pub fn acquire(runtime_dir: Option<&[u8]>, name: &str) -> (guard: Result<
        SingleInstance,
        SingleInstanceError,
    >)
        ensures
            match runtime_dir {
                Some(dir) => guard matches Ok(g) && g@ == guard_path(dir@, name@),
                None => guard matches Err(SingleInstanceError::MissingRuntimeDir),
            },
    {
        match runtime_dir {
            Some(dir) => {
                let file = name.to_owned().concat(".sock");
                Ok(SingleInstance { path: paths::join_str(dir, file.as_str()) })
            },
            None => Err(SingleInstanceError::MissingRuntimeDir),
        }
    }

    /// The path of the socket.
    pub fn path(&self) -> (path: &[u8])
        ensures
            path@ == self@,
    {
        self.path.as_slice()
    }

    /// What follows an attempt to bind the socket. An address in use is looked into
    /// once; after a stale socket was removed it is a failure.
    pub fn bind_finished(&self, outcome: BindOutcome, again: bool) -> (step: AcquireStep)
        ensures
            step == after_bind(outcome, again),
    {
        match outcome {
            BindOutcome::Bound => AcquireStep::Held,
            BindOutcome::AddressInUse(err) => {
                if again {
                    AcquireStep::Refused(SingleInstanceError::Io(err))
                } else {
                    AcquireStep::ProbeSocket
                }
            },
            BindOutcome::Failed(err) => AcquireStep::Refused(SingleInstanceError::Io(err)),
        }
    }

    /// What follows a look at the socket: a live one belongs to another copy.
    pub fn probe_finished(&self, live: bool) -> (step: AcquireStep)
        ensures
            step == after_probe(live),
    {
        if live {
            AcquireStep::Refused(SingleInstanceError::AlreadyRunning)
        } else {
            AcquireStep::RemoveStale
        }
    }

    /// What follows the removal of a stale socket, with the reason if it failed.
    pub fn removal_finished(&self, failure: Option<String>) -> (step: AcquireStep)
        ensures
            step == after_removal(failure),
    {
        match failure {
            Some(err) => AcquireStep::Refused(SingleInstanceError::Io(err)),
            None => AcquireStep::BindAgain,
        }
    }
}

/// The guard's socket is the file with the name and `.sock` in the runtime directory.
pub proof fn law_guard_path(runtime_dir: Seq<u8>, name: Text)
    requires
        runtime_dir.len() > 0,
        runtime_dir.last() != 47,
        name.len() > 0,
        name[0] != '/',
    ensures
        guard_path(runtime_dir, name) == runtime_dir + seq![47u8] + (encode_utf8(name)
            + encode_utf8(".sock"@)),
{
    crate::utf8_facts::lemma_encode_concat(name, ".sock"@);
    assert((name + ".sock"@)[0] == name[0]);
    paths::law_joined_text(runtime_dir, name + ".sock"@);
}

/// What is told of an error holds all that is known of it.
pub proof fn law_messages(reason: String)
    ensures
        SingleInstanceError::MissingRuntimeDir.text() == "XDG_RUNTIME_DIR is not set"@,
        SingleInstanceError::AlreadyRunning.text() == "another instance is already running"@,
        SingleInstanceError::Io(reason).text() == "single-instance guard failed: "@ + reason@,
{
}

} // verus!
