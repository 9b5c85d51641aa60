use ckan::tmux::{focus_pane, is_busy_mark, list_claude_panes, looks_like_claude, send_text, State};

#[test]
fn busy_marks_are_the_braille_block() {
    assert!(is_busy_mark('\u{2800}'));
    assert!(is_busy_mark('\u{280b}'));
    assert!(is_busy_mark('\u{28FF}'));
    assert!(!is_busy_mark('\u{27FF}'));
    assert!(!is_busy_mark('\u{2900}'));
    assert!(!is_busy_mark('\u{2733}'));
    assert!(!is_busy_mark('a'));
}

#[test]
fn agent_titles_start_with_a_mark() {
    assert!(looks_like_claude("✳ Code review"));
    assert!(looks_like_claude("⠋ working on it"));
    assert!(!looks_like_claude("bash"));
    assert!(!looks_like_claude(""));
    assert!(!looks_like_claude(" ✳ late mark"));
}

#[test]
fn list_panes_keeps_agent_panes_in_order() {
    let raw = "%1\tmain:0.1\teditor\tnode\t✳ Fix tests\n\
               %2\tmain:0.2\tsh\tbash\tplain shell\n\
               %3\tw:1.0\tagent\tnode\t⠙ Build thing\r\n\
               short\tline\n\
               %4\tw:1.1\tx\tbash\t✳\n";
    let ps = list_claude_panes(raw);
    assert_eq!(ps.len(), 3);
    assert_eq!(ps[0].id, "%1");
    assert_eq!(ps[0].loc, "main:0.1");
    assert_eq!(ps[0].window, "editor");
    assert_eq!(ps[0].title, "Fix tests");
    assert_eq!(ps[0].state, State::Waiting);
    assert_eq!(ps[1].id, "%3");
    assert_eq!(ps[1].title, "Build thing");
    assert_eq!(ps[1].state, State::Working);
    // Nothing but the mark: the raw title stays.
    assert_eq!(ps[2].id, "%4");
    assert_eq!(ps[2].title, "✳");
    assert_eq!(ps[2].state, State::Waiting);
}

#[test]
fn list_panes_of_nothing_is_empty() {
    assert!(list_claude_panes("").is_empty());
    assert!(list_claude_panes("\n\n").is_empty());
}

#[test]
fn focus_switches_client_then_selects_pane() {
    assert_eq!(
        focus_pane("%4"),
        vec![
            vec!["switch-client".to_string(), "-t".to_string(), "%4".to_string()],
            vec!["select-pane".to_string(), "-t".to_string(), "%4".to_string()],
        ]
    );
}

#[test]
fn send_text_is_literal_and_without_enter() {
    assert_eq!(
        send_text("%4", "hola\nmundo"),
        vec!["send-keys", "-t", "%4", "-l", "hola\nmundo"]
            .into_iter()
            .map(String::from)
            .collect::<Vec<_>>()
    );
}
