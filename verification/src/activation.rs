//! How a device comes to take part in a workspace, as a machine: it is told what has happened, and
//! tells what is to be done next.

use vstd::prelude::*;
use vstd::string::*;

use crate::config::{named_environment, ConfigError, Environment};
use crate::crypto::WorkspaceKey;
use crate::ids::{hyphenated_uuid, is_uuid, new_uuid, uuid_text};
use crate::plain::{opt_view, Plain};
use crate::text::{text_eq, trim_trailing, without_trailing};

verus! {

/// Why a device cannot take part.
#[derive(Debug, Clone, Copy, PartialEq, Eq, Structural)]
pub enum ActivationFault {
    /// The account has no workspace, and none is to be made.
    NoWorkspace,
    /// The store has refused the workspace, and the account has no other.
    WorkspaceRejected,
    /// The store has refused this device.
    DeviceRejected,
    /// Another workspace than the account's was asked for.
    WorkspaceMismatch,
    /// What the store names is no workspace.
    InvalidWorkspace,
    /// What has happened is not what was to be done.
    Unexpected,
}

/// What has happened.
pub enum ActivationEvent {
    /// The workspace of the account, if it has one.
    Account(Option<String>),
    /// The workspace was noted on this device.
    WorkspaceSaved,
    /// The key of the workspace, if this device has it.
    KeyLoaded(Option<WorkspaceKey>),
    KeyStored,
    /// Whether the store has taken this device into the workspace.
    Bootstrapped(bool),
    /// Whether the store knows this device.
    Enrolled(bool),
    /// Another device has handed the key over.
    KeyReceived(WorkspaceKey),
}

/// What has happened.
pub enum ActivationEventView {
    Account(Option<Seq<char>>),
    WorkspaceSaved,
    KeyLoaded(Option<Seq<u8>>),
    KeyStored,
    Bootstrapped(bool),
    Enrolled(bool),
    KeyReceived(Seq<u8>),
}

impl View for ActivationEvent {
    type V = ActivationEventView;

    open spec fn view(&self) -> ActivationEventView {
        match self {
            ActivationEvent::Account(workspace) => ActivationEventView::Account(
                opt_view(*workspace),
            ),
            ActivationEvent::WorkspaceSaved => ActivationEventView::WorkspaceSaved,
            ActivationEvent::KeyLoaded(key) => ActivationEventView::KeyLoaded(opt_view(*key)),
            ActivationEvent::KeyStored => ActivationEventView::KeyStored,
            ActivationEvent::Bootstrapped(accepted) => ActivationEventView::Bootstrapped(*accepted),
            ActivationEvent::Enrolled(known) => ActivationEventView::Enrolled(*known),
            ActivationEvent::KeyReceived(key) => ActivationEventView::KeyReceived(key@),
        }
    }
}

/// What is to be done.
pub enum ActivationAction {
    ReadAccount,
    SaveWorkspace(String),
    LoadKey(String),
    StoreKey(String, WorkspaceKey),
    Bootstrap(String),
    CheckEnrolled(String),
    /// Ask the other devices of the account for the key.
    Enroll(String),
    /// The device takes part in this workspace, with this key.
    Activate(String, WorkspaceKey),
    Fail(ActivationFault),
}

/// What is to be done.
pub enum ActivationActionView {
    ReadAccount,
    SaveWorkspace(Seq<char>),
    LoadKey(Seq<char>),
    StoreKey(Seq<char>, Seq<u8>),
    Bootstrap(Seq<char>),
    CheckEnrolled(Seq<char>),
    Enroll(Seq<char>),
    Activate(Seq<char>, Seq<u8>),
    Fail(ActivationFault),
}

impl View for ActivationAction {
    type V = ActivationActionView;

    open spec fn view(&self) -> ActivationActionView {
        match self {
            ActivationAction::ReadAccount => ActivationActionView::ReadAccount,
            ActivationAction::SaveWorkspace(id) => ActivationActionView::SaveWorkspace(id@),
            ActivationAction::LoadKey(id) => ActivationActionView::LoadKey(id@),
            ActivationAction::StoreKey(id, key) => ActivationActionView::StoreKey(id@, key@),
            ActivationAction::Bootstrap(id) => ActivationActionView::Bootstrap(id@),
            ActivationAction::CheckEnrolled(id) => ActivationActionView::CheckEnrolled(id@),
            ActivationAction::Enroll(id) => ActivationActionView::Enroll(id@),
            ActivationAction::Activate(id, key) => ActivationActionView::Activate(id@, key@),
            ActivationAction::Fail(fault) => ActivationActionView::Fail(*fault),
        }
    }
}

/// How far it has come.
enum Stage {
    Asking,
    SavingOwn(String),
    LoadingOwn(String),
    StoringOwn(String, WorkspaceKey),
    BootstrappingOwn(String, WorkspaceKey),
    AskingAgain,
    Joining(String),
    LoadingShared(String),
    CheckingDevice(String, WorkspaceKey),
    Registering(String, WorkspaceKey),
    Enrolling(String),
    StoringShared(String, WorkspaceKey),
    Over,
}

/// How far it has come.
pub enum ActivationStage {
    Asking,
    SavingOwn(Seq<char>),
    LoadingOwn(Seq<char>),
    StoringOwn(Seq<char>, Seq<u8>),
    BootstrappingOwn(Seq<char>, Seq<u8>),
    AskingAgain,
    Joining(Seq<char>),
    LoadingShared(Seq<char>),
    CheckingDevice(Seq<char>, Seq<u8>),
    Registering(Seq<char>, Seq<u8>),
    Enrolling(Seq<char>),
    StoringShared(Seq<char>, Seq<u8>),
    Over,
}

impl Stage {
    spec fn told(self) -> ActivationStage {
        match self {
            Stage::Asking => ActivationStage::Asking,
            Stage::SavingOwn(id) => ActivationStage::SavingOwn(id@),
            Stage::LoadingOwn(id) => ActivationStage::LoadingOwn(id@),
            Stage::StoringOwn(id, key) => ActivationStage::StoringOwn(id@, key@),
            Stage::BootstrappingOwn(id, key) => ActivationStage::BootstrappingOwn(id@, key@),
            Stage::AskingAgain => ActivationStage::AskingAgain,
            Stage::Joining(id) => ActivationStage::Joining(id@),
            Stage::LoadingShared(id) => ActivationStage::LoadingShared(id@),
            Stage::CheckingDevice(id, key) => ActivationStage::CheckingDevice(id@, key@),
            Stage::Registering(id, key) => ActivationStage::Registering(id@, key@),
            Stage::Enrolling(id) => ActivationStage::Enrolling(id@),
            Stage::StoringShared(id, key) => ActivationStage::StoringShared(id@, key@),
            Stage::Over => ActivationStage::Over,
        }
    }
}

/// A device on its way into a workspace.
pub struct Activation {
    /// A workspace is made where the account has none.
    create: bool,
    /// The workspace that was noted on this device.
    local: Option<String>,
    /// The workspace that was asked for.
    configured: Option<String>,
    stage: Stage,
}

/// What is known on the way.
pub struct ActivationView {
    pub create: bool,
    pub local: Option<Seq<char>>,
    pub configured: Option<Seq<char>>,
    pub stage: ActivationStage,
}

impl View for Activation {
    type V = ActivationView;

    closed spec fn view(&self) -> ActivationView {
        ActivationView {
            create: self.create,
            local: opt_view(self.local),
            configured: opt_view(self.configured),
            stage: self.stage.told(),
        }
    }
}

/// It goes on at a stage with an action.
pub open spec fn going_on(
    state: ActivationView,
    stage: ActivationStage,
    action: ActivationActionView,
) -> (ActivationView, ActivationActionView) {
    (ActivationView { stage, ..state }, action)
}

/// It cannot go on.
pub open spec fn given_up(state: ActivationView, fault: ActivationFault) -> (
    ActivationView,
    ActivationActionView,
) {
    going_on(state, ActivationStage::Over, ActivationActionView::Fail(fault))
}

/// The device joins the workspace of its account, unless another one was asked for.
pub open spec fn joined(state: ActivationView, workspace: Seq<char>) -> (
    ActivationView,
    ActivationActionView,
) {
    if state.configured is Some && state.configured != Some(workspace) {
        given_up(state, ActivationFault::WorkspaceMismatch)
    } else if !uuid_text(workspace) {
        given_up(state, ActivationFault::InvalidWorkspace)
    } else {
        going_on(
            state,
            ActivationStage::Joining(workspace),
            ActivationActionView::SaveWorkspace(workspace),
        )
    }
}

/// The device takes part.
pub open spec fn activated(state: ActivationView, workspace: Seq<char>, key: Seq<u8>) -> (
    ActivationView,
    ActivationActionView,
) {
    going_on(
        state,
        ActivationStage::Over,
        ActivationActionView::Activate(workspace, key),
    )
}

/// What comes of what has happened, given a fresh workspace and a fresh key.
pub open spec fn activation_advanced(
    state: ActivationView,
    event: ActivationEventView,
    fresh_workspace: Seq<char>,
    fresh_key: Seq<u8>,
) -> (ActivationView, ActivationActionView) {
    match (state.stage, event) {
        (ActivationStage::Asking, ActivationEventView::Account(Some(workspace))) => joined(
            state,
            workspace,
        ),
        (ActivationStage::Asking, ActivationEventView::Account(None)) => if !state.create {
            given_up(state, ActivationFault::NoWorkspace)
        } else {
            match state.local {
                Some(workspace) => going_on(
                    state,
                    ActivationStage::LoadingOwn(workspace),
                    ActivationActionView::LoadKey(workspace),
                ),
                None => going_on(
                    state,
                    ActivationStage::SavingOwn(fresh_workspace),
                    ActivationActionView::SaveWorkspace(fresh_workspace),
                ),
            }
        },
        (ActivationStage::SavingOwn(workspace), ActivationEventView::WorkspaceSaved) => going_on(
            state,
            ActivationStage::LoadingOwn(workspace),
            ActivationActionView::LoadKey(workspace),
        ),
        (ActivationStage::LoadingOwn(workspace), ActivationEventView::KeyLoaded(Some(key))) =>
        going_on(
            state,
            ActivationStage::BootstrappingOwn(workspace, key),
            ActivationActionView::Bootstrap(workspace),
        ),
        (ActivationStage::LoadingOwn(workspace), ActivationEventView::KeyLoaded(None)) => going_on(
            state,
            ActivationStage::StoringOwn(workspace, fresh_key),
            ActivationActionView::StoreKey(workspace, fresh_key),
        ),
        (ActivationStage::StoringOwn(workspace, key), ActivationEventView::KeyStored) => going_on(
            state,
            ActivationStage::BootstrappingOwn(workspace, key),
            ActivationActionView::Bootstrap(workspace),
        ),
        (
            ActivationStage::BootstrappingOwn(workspace, key),
            ActivationEventView::Bootstrapped(accepted),
        ) => if accepted {
            activated(state, workspace, key)
        } else {
            going_on(state, ActivationStage::AskingAgain, ActivationActionView::ReadAccount)
        },
        (ActivationStage::AskingAgain, ActivationEventView::Account(Some(workspace))) => joined(
            state,
            workspace,
        ),
        (ActivationStage::AskingAgain, ActivationEventView::Account(None)) => given_up(
            state,
            ActivationFault::WorkspaceRejected,
        ),
        (ActivationStage::Joining(workspace), ActivationEventView::WorkspaceSaved) => going_on(
            state,
            ActivationStage::LoadingShared(workspace),
            ActivationActionView::LoadKey(workspace),
        ),
        (ActivationStage::LoadingShared(workspace), ActivationEventView::KeyLoaded(Some(key))) =>
        going_on(
            state,
            ActivationStage::CheckingDevice(workspace, key),
            ActivationActionView::CheckEnrolled(workspace),
        ),
        (ActivationStage::LoadingShared(workspace), ActivationEventView::KeyLoaded(None)) =>
        going_on(
            state,
            ActivationStage::Enrolling(workspace),
            ActivationActionView::Enroll(workspace),
        ),
        (
            ActivationStage::CheckingDevice(workspace, key),
            ActivationEventView::Enrolled(known),
        ) => if known {
            activated(state, workspace, key)
        } else {
            going_on(
                state,
                ActivationStage::Registering(workspace, key),
                ActivationActionView::Bootstrap(workspace),
            )
        },
        (
            ActivationStage::Registering(workspace, key),
            ActivationEventView::Bootstrapped(accepted),
        ) => if accepted {
            activated(state, workspace, key)
        } else {
            given_up(state, ActivationFault::DeviceRejected)
        },
        (ActivationStage::Enrolling(workspace), ActivationEventView::KeyReceived(key)) => going_on(
            state,
            ActivationStage::StoringShared(workspace, key),
            ActivationActionView::StoreKey(workspace, key),
        ),
        (ActivationStage::StoringShared(workspace, key), ActivationEventView::KeyStored) =>
        activated(state, workspace, key),
        _ => given_up(state, ActivationFault::Unexpected),
    }
}

impl Activation {
    /// A device that is signed in, and asks for the workspace of its account.
    pub fn new(create: bool, local: Option<String>, configured: Option<String>) -> (result: (
        Self,
        ActivationAction,
    ))
        ensures
            result.0@ == (ActivationView {
                create,
                local: opt_view(local),
                configured: opt_view(configured),
                stage: ActivationStage::Asking,
            }),
            result.1@ == ActivationActionView::ReadAccount,
    {
        (
            Activation { create, local, configured, stage: Stage::Asking },
            ActivationAction::ReadAccount,
        )
    }

    fn join(&mut self, workspace: String) -> (action: ActivationAction)
        ensures
            (final(self)@, action@) == joined(old(self)@, workspace@),
    {
        let mismatch = match &self.configured {
            Some(configured) => !text_eq(configured.as_str(), workspace.as_str()),
            None => false,
        };
        if mismatch {
            self.stage = Stage::Over;
            return ActivationAction::Fail(ActivationFault::WorkspaceMismatch);
        }
        if !is_uuid(workspace.as_str()) {
            self.stage = Stage::Over;
            return ActivationAction::Fail(ActivationFault::InvalidWorkspace);
        }
        self.stage = Stage::Joining(workspace.duplicate());
        ActivationAction::SaveWorkspace(workspace)
    }

    /// Takes note of what has happened, and tells what is to be done next, given a fresh workspace
    /// and a fresh key.
    pub fn advance_with(
        &mut self,
        event: ActivationEvent,
        fresh_workspace: String,
        fresh_key: WorkspaceKey,
    ) -> (action: ActivationAction)
        ensures
            (final(self)@, action@) == activation_advanced(
                old(self)@,
                event@,
                fresh_workspace@,
                fresh_key@,
            ),
    {
        let mut stage = Stage::Over;
        std::mem::swap(&mut stage, &mut self.stage);
        match (stage, event) {
            (Stage::Asking, ActivationEvent::Account(Some(workspace))) => self.join(workspace),
            (Stage::Asking, ActivationEvent::Account(None)) => {
                if !self.create {
                    return ActivationAction::Fail(ActivationFault::NoWorkspace);
                }
                match &self.local {
                    Some(workspace) => {
                        let workspace = workspace.duplicate();
                        self.stage = Stage::LoadingOwn(workspace.duplicate());
                        ActivationAction::LoadKey(workspace)
                    },
                    None => {
                        self.stage = Stage::SavingOwn(fresh_workspace.duplicate());
                        ActivationAction::SaveWorkspace(fresh_workspace)
                    },
                }
            },
            (Stage::SavingOwn(workspace), ActivationEvent::WorkspaceSaved) => {
                self.stage = Stage::LoadingOwn(workspace.duplicate());
                ActivationAction::LoadKey(workspace)
            },
            (Stage::LoadingOwn(workspace), ActivationEvent::KeyLoaded(Some(key))) => {
                self.stage = Stage::BootstrappingOwn(workspace.duplicate(), key);
                ActivationAction::Bootstrap(workspace)
            },
            (Stage::LoadingOwn(workspace), ActivationEvent::KeyLoaded(None)) => {
                self.stage = Stage::StoringOwn(workspace.duplicate(), fresh_key.copied());
                ActivationAction::StoreKey(workspace, fresh_key)
            },
            (Stage::StoringOwn(workspace, key), ActivationEvent::KeyStored) => {
                self.stage = Stage::BootstrappingOwn(workspace.duplicate(), key);
                ActivationAction::Bootstrap(workspace)
            },
            (Stage::BootstrappingOwn(workspace, key), ActivationEvent::Bootstrapped(accepted)) => {
                if accepted {
                    ActivationAction::Activate(workspace, key)
                } else {
                    self.stage = Stage::AskingAgain;
                    ActivationAction::ReadAccount
                }
            },
            (Stage::AskingAgain, ActivationEvent::Account(Some(workspace))) => self.join(workspace),
            (Stage::AskingAgain, ActivationEvent::Account(None)) => ActivationAction::Fail(
                ActivationFault::WorkspaceRejected,
            ),
            (Stage::Joining(workspace), ActivationEvent::WorkspaceSaved) => {
                self.stage = Stage::LoadingShared(workspace.duplicate());
                ActivationAction::LoadKey(workspace)
            },
            (Stage::LoadingShared(workspace), ActivationEvent::KeyLoaded(Some(key))) => {
                self.stage = Stage::CheckingDevice(workspace.duplicate(), key);
                ActivationAction::CheckEnrolled(workspace)
            },
            (Stage::LoadingShared(workspace), ActivationEvent::KeyLoaded(None)) => {
                self.stage = Stage::Enrolling(workspace.duplicate());
                ActivationAction::Enroll(workspace)
            },
            (Stage::CheckingDevice(workspace, key), ActivationEvent::Enrolled(known)) => {
                if known {
                    ActivationAction::Activate(workspace, key)
                } else {
                    self.stage = Stage::Registering(workspace.duplicate(), key);
                    ActivationAction::Bootstrap(workspace)
                }
            },
            (Stage::Registering(workspace, key), ActivationEvent::Bootstrapped(accepted)) => {
                if accepted {
                    ActivationAction::Activate(workspace, key)
                } else {
                    ActivationAction::Fail(ActivationFault::DeviceRejected)
                }
            },
            (Stage::Enrolling(workspace), ActivationEvent::KeyReceived(key)) => {
                self.stage = Stage::StoringShared(workspace.duplicate(), key.copied());
                ActivationAction::StoreKey(workspace, key)
            },
            (Stage::StoringShared(workspace, key), ActivationEvent::KeyStored) =>
            ActivationAction::Activate(workspace, key),
            _ => ActivationAction::Fail(ActivationFault::Unexpected),
        }
    }

    /// Takes note of what has happened, and tells what is to be done next.
    pub fn advance(&mut self, event: ActivationEvent) -> (action: ActivationAction)
        ensures
            exists|fresh_workspace: Seq<char>, fresh_key: Seq<u8>|
                hyphenated_uuid(fresh_workspace) && fresh_key.len() == 32 && (
                final(self)@,
                action@,
            ) == #[trigger] activation_advanced(
                    old(self)@,
                    event@,
                    fresh_workspace,
                    fresh_key,
                ),
    {
        let fresh_workspace = new_uuid();
        let fresh_key = WorkspaceKey::random();
        let ghost before = self@;
        let ghost told = event@;
        let ghost workspace = fresh_workspace@;
        let ghost key = fresh_key@;
        let action = self.advance_with(event, fresh_workspace, fresh_key);
        assert((self@, action@) == activation_advanced(before, told, workspace, key));
        action
    }
}

/// A device takes part with a key that it had, was handed, or made, only after the store has
/// agreed: the store has taken it into the workspace, knows it, or another device has let it in.
pub proof fn lemma_activated_with_consent(
    state: ActivationView,
    event: ActivationEventView,
    fresh_workspace: Seq<char>,
    fresh_key: Seq<u8>,
)
    requires
        activation_advanced(state, event, fresh_workspace, fresh_key).1 is Activate,
    ensures
        ({
            ||| event == ActivationEventView::Bootstrapped(true)
            ||| event == ActivationEventView::Enrolled(true)
            ||| event == ActivationEventView::KeyStored && state.stage is StoringShared
        }),
{
}

/// Where another workspace was asked for than the account has, the device never joins.
pub proof fn lemma_mismatch_never_joins(
    state: ActivationView,
    workspace: Seq<char>,
    fresh_workspace: Seq<char>,
    fresh_key: Seq<u8>,
)
    requires
        state.configured is Some,
        state.configured != Some(workspace),
        state.stage is Asking || state.stage is AskingAgain,
    ensures
        activation_advanced(
            state,
            ActivationEventView::Account(Some(workspace)),
            fresh_workspace,
            fresh_key,
        ).1 == ActivationActionView::Fail(ActivationFault::WorkspaceMismatch),
{
}

/// The environment that a command names; the production one where it names none.
pub fn choose_environment(name: Option<&str>) -> (result: Result<Environment, ConfigError>)
    ensures
        result == match name {
            Some(text) => named_environment(text@),
            None => Ok(Environment::Production),
        },
{
    match name {
        Some(text) => Environment::parse(text),
        None => Ok(Environment::Production),
    }
}

/// The environment of this device: the one that is set for the process, else the one that was
/// noted, else the production one. A name that is set must be one.
pub open spec fn selected(configured: Option<Seq<char>>, noted: Option<Seq<char>>) -> Option<
    Environment,
> {
    match configured {
        Some(name) => match named_environment(name) {
            Ok(environment) => Some(environment),
            Err(_) => None,
        },
        None => match noted {
            Some(name) => match named_environment(name) {
                Ok(environment) => Some(environment),
                Err(_) => Some(Environment::Production),
            },
            None => Some(Environment::Production),
        },
    }
}

/// The environment of this device.
pub fn selected_environment(configured: Option<&str>, noted: Option<&str>) -> (environment: Option<
    Environment,
>)
    ensures
        environment == selected(
            match configured {
                Some(name) => Some(name@),
                None => None,
            },
            match noted {
                Some(name) => Some(name@),
                None => None,
            },
        ),
{
    match configured {
        Some(name) => match Environment::parse(name) {
            Ok(environment) => Some(environment),
            Err(_) => None,
        },
        None => match noted {
            Some(name) => match Environment::parse(name) {
                Ok(environment) => Some(environment),
                Err(_) => Some(Environment::Production),
            },
            None => Some(Environment::Production),
        },
    }
}

/// The name under which the workspace of an environment is noted.
pub fn workspace_setting(environment: Environment) -> (name: String)
    ensures
        name@ == "sync_workspace_id:"@ + environment.name(),
{
    let mut name = "sync_workspace_id:".to_owned();
    name.append(environment.as_str());
    name
}

/// The workspace of this device: the one that is set for the process, which must be a UUID, else
/// the one that was noted, where it is a UUID, else a new one, where one is to be made. The second
/// part tells whether it is new and to be noted.
pub fn workspace_id(configured: Option<&str>, noted: Option<&str>, create: bool) -> (result: Result<
    Option<(String, bool)>,
    ActivationFault,
>)
    ensures
        match configured {
            Some(text) => if uuid_text(text@) {
                result matches Ok(Some((id, new))) && id@ == text@ && !new
            } else {
                result == Err::<Option<(String, bool)>, ActivationFault>(
                    ActivationFault::InvalidWorkspace,
                )
            },
            None => if noted is Some && uuid_text(noted->0@) {
                result matches Ok(Some((id, new))) && id@ == noted->0@ && !new
            } else if create {
                result matches Ok(Some((id, new))) && hyphenated_uuid(id@) && new
            } else {
                result == Ok::<Option<(String, bool)>, ActivationFault>(None)
            },
        },
{
    match configured {
        Some(text) => {
            if !is_uuid(text) {
                return Err(ActivationFault::InvalidWorkspace);
            }
            return Ok(Some((text.to_owned(), false)));
        },
        None => {},
    }
    match noted {
        Some(text) => {
            if is_uuid(text) {
                return Ok(Some((text.to_owned(), false)));
            }
        },
        None => {},
    }
    if !create {
        return Ok(None);
    }
    Ok(Some((new_uuid(), true)))
}

/// Whether a sign-in may go ahead: not while another environment is active.
pub fn may_sign_in(active: Option<Environment>, requested: Environment) -> (allowed: bool)
    ensures
        allowed == (active is None || active == Some(requested)),
{
    match active {
        Some(environment) => environment == requested,
        None => true,
    }
}

/// What is told after a sign-in.
#[derive(Debug, Clone, PartialEq, Eq)]
pub struct SyncSignIn {
    pub environment: &'static str,
    pub endpoint: String,
}

/// What is told after a sign-in.
pub fn signed_in(environment: Environment, address: &str) -> (answer: SyncSignIn)
    ensures
        answer.environment@ == environment.name(),
        answer.endpoint@ == without_trailing(address@, '/'),
{
    SyncSignIn {
        environment: environment.as_str(),
        endpoint: trim_trailing(address, '/'),
    }
}

} // verus!
