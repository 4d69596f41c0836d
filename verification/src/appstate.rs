use vstd::prelude::*;

verus! {

/// The interface state: the chosen project folder, the replaced
/// identifier lines on display, and the error dialog. The window loop
/// drives it through the methods below; the decisions live here.
pub struct App {
    pub error: Option<String>,
    pub show_error: bool,
    pub folder: String,
    pub objects: Vec<String>,
}

impl App {
    /// A fresh state: no folder, no results, no error on display.
    pub fn new() -> (a: App)
        ensures
            a.error is None,
            !a.show_error,
            a.folder@.len() == 0,
            a.objects@.len() == 0,
    {
        App { error: None, show_error: false, folder: String::new(), objects: Vec::new() }
    }

    /// The user picked a project folder.
    pub fn set_folder(&mut self, folder: String)
        ensures
            final(self).folder == folder,
            final(self).error == old(self).error,
            final(self).show_error == old(self).show_error,
            final(self).objects == old(self).objects,
    {
        self.folder = folder;
    }

    /// A processing run finished: show its report lines and clear any
    /// earlier error.
    pub fn report_success(&mut self, lines: Vec<String>)
        ensures
            final(self).objects == lines,
            final(self).error is None,
            !final(self).show_error,
            final(self).folder == old(self).folder,
    {
        self.objects = lines;
        self.error = None;
        self.show_error = false;
    }

    /// A processing run failed: raise the error dialog with its message.
    pub fn report_failure(&mut self, message: String)
        ensures
            final(self).error == Some(message),
            final(self).show_error,
            final(self).folder == old(self).folder,
            final(self).objects == old(self).objects,
    {
        self.error = Some(message);
        self.show_error = true;
    }

    /// The user dismissed the error dialog.
    pub fn dismiss_error(&mut self)
        ensures
            final(self).error is None,
            !final(self).show_error,
            final(self).folder == old(self).folder,
            final(self).objects == old(self).objects,
    {
        self.error = None;
        self.show_error = false;
    }
}

} // verus!
