use git_intel::ticket::extract_ticket_ref;

#[test]
fn ticket_jira_style_colon() {
    assert_eq!(extract_ticket_ref("JIRA-123: fix login"), Some("JIRA-123".to_string()));
}

#[test]
fn ticket_jira_style_space() {
    assert_eq!(extract_ticket_ref("PROJ-456 update auth"), Some("PROJ-456".to_string()));
}

#[test]
fn ticket_jira_two_letter_prefix() {
    assert_eq!(extract_ticket_ref("FO-1 minimal prefix"), Some("FO-1".to_string()));
}

#[test]
fn ticket_bracketed_jira() {
    assert_eq!(extract_ticket_ref("[PROJ-456] update auth"), Some("PROJ-456".to_string()));
}

#[test]
fn ticket_bracketed_takes_priority() {
    assert_eq!(extract_ticket_ref("fix [CORE-99] for JIRA-123"), Some("CORE-99".to_string()));
}

#[test]
fn ticket_github_issue_bare() {
    assert_eq!(extract_ticket_ref("fix typo #789"), Some("#789".to_string()));
}

#[test]
fn ticket_fixes_pattern() {
    assert_eq!(extract_ticket_ref("Fixes #42 — null check"), Some("#42".to_string()));
}

#[test]
fn ticket_closes_pattern() {
    assert_eq!(extract_ticket_ref("Closes #100"), Some("#100".to_string()));
}

#[test]
fn ticket_fixed_pattern() {
    assert_eq!(extract_ticket_ref("Fixed #55 in auth"), Some("#55".to_string()));
}

#[test]
fn ticket_no_reference() {
    assert_eq!(extract_ticket_ref("just a regular commit message"), None);
}

#[test]
fn ticket_empty_message() {
    assert_eq!(extract_ticket_ref(""), None);
}

#[test]
fn ticket_multiline_uses_first_line() {
    assert_eq!(
        extract_ticket_ref("JIRA-100: first line\n\nBody mentions JIRA-200"),
        Some("JIRA-100".to_string())
    );
}

#[test]
fn ticket_single_letter_prefix_no_match() {
    assert_eq!(extract_ticket_ref("A-123 something"), None);
}

#[test]
fn ticket_jira_mid_sentence() {
    assert_eq!(extract_ticket_ref("fix: resolve CORE-42 auth issue"), Some("CORE-42".to_string()));
}

#[test]
fn ticket_multiple_returns_first_jira() {
    assert_eq!(extract_ticket_ref("PROJ-1 and PROJ-2 changes"), Some("PROJ-1".to_string()));
}

#[test]
fn ticket_hash_without_digits_no_match() {
    assert_eq!(extract_ticket_ref("use # for comments"), None);
}
