use crate::handler::Client;
use vstd::prelude::*;

verus! {

/// Why the connection to KWin could not be set up.
#[derive(Clone, Copy, Debug, PartialEq, Eq, Structural)]
pub enum ConnectionError {
    TempPathNotValidUtf8,
    WriteScriptToTempFile,
    ClientSession,
    LoadScriptCall,
    InvalidLoadScriptResult,
    UnloadScriptCall,
    InvalidUnloadScriptResult,
    StartScriptCall,
    IsScriptLoadedCall,
    InvalidIsScriptLoadedResult,
    ServerSession,
    CreateDBusProxy,
    RequestName,
    ServeObjServer,
}

/// The window that KWin last reported as active.
pub struct ActiveWindow {
    pub res_class: String,
    pub res_name: String,
    pub title: String,
}

/// Window-manager client for KDE: KWin reports each newly active window to it.
pub struct KdeClient {
    pub supported: Option<bool>,
    pub active_window: ActiveWindow,
}

impl KdeClient {
    /// A client for the outcome of connecting to KWin: supported iff it connected,
    /// with no window reported yet.
    pub fn new(connection: Result<(), ConnectionError>) -> (r: KdeClient)
        ensures
            r.supported == Some(connection.is_ok()),
            r.active_window.title@ == Seq::<char>::empty(),
            r.active_window.res_class@ == Seq::<char>::empty(),
            r.active_window.res_name@ == Seq::<char>::empty(),
    {
        let active_window = ActiveWindow {
            title: String::new(),
            res_name: String::new(),
            res_class: String::new(),
        };
        KdeClient { active_window, supported: Some(connection.is_ok()) }
    }

    /// Records the window that KWin reports as active.
    pub fn notify_active_window(&mut self, caption: String, res_class: String, res_name: String)
        ensures
            final(self).active_window.title@ == caption@,
            final(self).active_window.res_class@ == res_class@,
            final(self).active_window.res_name@ == res_name@,
            final(self).supported == old(self).supported,
    {
        self.active_window.title = caption;
        self.active_window.res_class = res_class;
        self.active_window.res_name = res_name;
    }
}

impl Client for KdeClient {
    fn supported(&mut self) -> (r: bool)
        ensures
            r == (old(self).supported == Some(true)),
            *final(self) == *old(self),
    {
        match self.supported {
            Some(s) => s,
            None => false,
        }
    }

    fn current_window(&mut self) -> (r: Option<String>)
        ensures
            r.is_some() && r.unwrap()@ == old(self).active_window.title@,
            *final(self) == *old(self),
    {
        Some(self.active_window.title.clone())
    }

    fn current_application(&mut self) -> (r: Option<String>)
        ensures
            r.is_some() && r.unwrap()@ == old(self).active_window.res_class@,
            *final(self) == *old(self),
    {
        Some(self.active_window.res_class.clone())
    }
}

/// The next thing to do while installing the KWin script.
#[derive(Clone, Copy, Debug, PartialEq, Eq)]
pub enum ScriptStep {
    CheckLoaded,
    WriteScript,
    LoadScript,
    StartScript(i32),
    /// Unload the plugin after a failed install, then report this error.
    Unload(ConnectionError),
    Finished(Result<(), ConnectionError>),
}

/// What the last step reported.
#[derive(Clone, Copy, Debug, PartialEq, Eq)]
pub enum ScriptOutcome {
    Loaded(Result<bool, ConnectionError>),
    Written(Result<(), ConnectionError>),
    ScriptLoaded(Result<i32, ConnectionError>),
    Started(Result<(), ConnectionError>),
    Unloaded,
}

/// Install decisions: a script already loaded is kept; otherwise it is written,
/// loaded and started, and a failure there unloads the plugin before reporting
/// the failure. An outcome that does not belong to the step leaves it unchanged.
pub open spec fn script_transition(step: ScriptStep, outcome: ScriptOutcome) -> ScriptStep {
    match (step, outcome) {
        (ScriptStep::CheckLoaded, ScriptOutcome::Loaded(r)) => match r {
            Ok(true) => ScriptStep::Finished(Ok(())),
            Ok(false) => ScriptStep::WriteScript,
            Err(e) => ScriptStep::Finished(Err(e)),
        },
        (ScriptStep::WriteScript, ScriptOutcome::Written(r)) => match r {
            Ok(()) => ScriptStep::LoadScript,
            Err(e) => ScriptStep::Unload(e),
        },
        (ScriptStep::LoadScript, ScriptOutcome::ScriptLoaded(r)) => match r {
            Ok(id) => ScriptStep::StartScript(id),
            Err(e) => ScriptStep::Unload(e),
        },
        (ScriptStep::StartScript(_), ScriptOutcome::Started(r)) => match r {
            Ok(()) => ScriptStep::Finished(Ok(())),
            Err(e) => ScriptStep::Unload(e),
        },
        (ScriptStep::Unload(e), ScriptOutcome::Unloaded) => ScriptStep::Finished(Err(e)),
        _ => step,
    }
}

pub fn next_script_step(step: ScriptStep, outcome: ScriptOutcome) -> (r: ScriptStep)
    ensures
        r == script_transition(step, outcome),
{
    match (step, outcome) {
        (ScriptStep::CheckLoaded, ScriptOutcome::Loaded(r)) => match r {
            Ok(true) => ScriptStep::Finished(Ok(())),
            Ok(false) => ScriptStep::WriteScript,
            Err(e) => ScriptStep::Finished(Err(e)),
        },
        (ScriptStep::WriteScript, ScriptOutcome::Written(r)) => match r {
            Ok(()) => ScriptStep::LoadScript,
            Err(e) => ScriptStep::Unload(e),
        },
        (ScriptStep::LoadScript, ScriptOutcome::ScriptLoaded(r)) => match r {
            Ok(id) => ScriptStep::StartScript(id),
            Err(e) => ScriptStep::Unload(e),
        },
        (ScriptStep::StartScript(_), ScriptOutcome::Started(r)) => match r {
            Ok(()) => ScriptStep::Finished(Ok(())),
            Err(e) => ScriptStep::Unload(e),
        },
        (ScriptStep::Unload(e), ScriptOutcome::Unloaded) => ScriptStep::Finished(Err(e)),
        _ => step,
    }
}

/// Once the script was found missing, no step reports a failure directly: a
/// failure first leads to unloading the plugin.
pub proof fn lemma_failed_install_unloads(step: ScriptStep, outcome: ScriptOutcome)
    requires
        !(step is CheckLoaded),
        !(step is Unload),
        !(step is Finished),
    ensures
        !(script_transition(step, outcome) matches ScriptStep::Finished(Err(_))),
{
}

} // verus!
