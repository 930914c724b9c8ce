//! The host side of the command contract: the messages the engine sends to
//! the editor shell, built here as plain values. Transporting them (and
//! everything the shell owns: windows, files, clipboard) stays outside the
//! engine.

use vstd::prelude::*;

use crate::diagnostics::{Diagnostic, HostCommand};

verus! {

/// One outbound message to the host shell.
pub enum HostMessage {
    /// The canonical edit actually applied, for host-side mirroring: the new
    /// text and the replaced span's line/column endpoints.
    Edited { new_text: String, start_line: usize, start_col: usize, end_line: usize, end_col: usize },
    /// Hand the active selection's text to the host clipboard.
    SetClipboard { text: String },
    /// Ask the host's analyzer for the fixes at a line/column position.
    RequestQuickFixes { line: usize, col: usize },
    /// Forward a fix or action the user chose, uninterpreted.
    ExecuteCommand { command: HostCommand },
}

/// Notification that an edit replacing the span between the given
/// line/column endpoints with `new_text` was applied.
pub fn edited(
    new_text: &str,
    start_line: usize,
    start_col: usize,
    end_line: usize,
    end_col: usize,
) -> (m: HostMessage)
    ensures
        m matches HostMessage::Edited {
            new_text: t,
            start_line: sl,
            start_col: sc,
            end_line: el,
            end_col: ec,
        } && t@ == new_text@ && sl == start_line && sc == start_col && el == end_line && ec
            == end_col,
{
    HostMessage::Edited {
        new_text: new_text.to_owned(),
        start_line,
        start_col,
        end_line,
        end_col,
    }
}

/// Hand `text` to the host clipboard.
pub fn set_clipboard(text: String) -> (m: HostMessage)
    ensures
        m matches HostMessage::SetClipboard { text: t } && t@ == text@,
{
    HostMessage::SetClipboard { text }
}

/// Ask the host for quick fixes at the given line/column position.
pub fn request_quick_fixes(line: usize, col: usize) -> (m: HostMessage)
    ensures
        m == (HostMessage::RequestQuickFixes { line, col }),
{
    HostMessage::RequestQuickFixes { line, col }
}

/// Forward an opaque host command chosen by the user.
pub fn execute_command(command: String, arguments: String) -> (m: HostMessage)
    ensures
        m matches HostMessage::ExecuteCommand { command: c } && c.command@ == command@
            && c.arguments@ == arguments@,
{
    HostMessage::ExecuteCommand { command: HostCommand { command, arguments } }
}

/// The application-level model around one open document: where it lives,
/// its source, and the host-pushed diagnostics state.
pub struct AppModel {
    pub dir: Option<String>,
    pub file: Option<String>,
    pub source: String,
    pub diagnostics: Vec<Diagnostic>,
    pub diagnostic_selection: Option<u64>,
}

impl AppModel {
    /// No directory chosen yet, nothing open.
    pub fn new() -> (r: AppModel)
        ensures
            r.dir is None,
            r.file is None,
            r.source@ == Seq::<char>::empty(),
            r.diagnostics@.len() == 0,
            r.diagnostic_selection is None,
    {
        AppModel {
            dir: None,
            file: None,
            source: String::new(),
            diagnostics: Vec::new(),
            diagnostic_selection: None,
        }
    }
}

} // verus!
