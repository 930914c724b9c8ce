use lilypad::host::{
    edited, execute_command, request_quick_fixes, set_clipboard, AppModel, HostMessage,
};

#[test]
fn edited_carries_the_canonical_edit() {
    let m = edited("    return 1\n", 2, 0, 2, 0);
    match m {
        HostMessage::Edited { new_text, start_line, start_col, end_line, end_col } => {
            assert_eq!(new_text, "    return 1\n");
            assert_eq!((start_line, start_col), (2, 0));
            assert_eq!((end_line, end_col), (2, 0));
        },
        _ => panic!("wrong message variant"),
    }
}

#[test]
fn set_clipboard_carries_the_text() {
    let m = set_clipboard(String::from("y = 2\n"));
    match m {
        HostMessage::SetClipboard { text } => assert_eq!(text, "y = 2\n"),
        _ => panic!("wrong message variant"),
    }
}

#[test]
fn request_quick_fixes_carries_the_position() {
    let m = request_quick_fixes(3, 7);
    match m {
        HostMessage::RequestQuickFixes { line, col } => assert_eq!((line, col), (3, 7)),
        _ => panic!("wrong message variant"),
    }
}

#[test]
fn execute_command_forwards_the_command_unmodified() {
    let m = execute_command(String::from("python.sortImports"), String::from("[]"));
    match m {
        HostMessage::ExecuteCommand { command } => {
            assert_eq!(command.command, "python.sortImports");
            assert_eq!(command.arguments, "[]");
        },
        _ => panic!("wrong message variant"),
    }
}

#[test]
fn app_model_starts_empty() {
    let m = AppModel::new();
    assert!(m.dir.is_none());
    assert!(m.file.is_none());
    assert_eq!(m.source, "");
    assert!(m.diagnostics.is_empty());
    assert!(m.diagnostic_selection.is_none());
}
