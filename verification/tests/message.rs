use atomic_git::message::{
    full_message, parse_atomic_changes_trailer, parse_commit_message, parse_header_trailer,
    parse_pr_number, parse_push_trailer, parse_squash_merge_format, parse_trailer,
    push_state_text, split_atomic_changes_value, Merkle, PushTrailer,
};

/// A view state and its text: 64 hexadecimal digits.
fn test_state() -> (String, Merkle) {
    let state = Merkle {
        hi: 0x0123_4567_89ab_cdef_0123_4567_89ab_cdef,
        lo: 0xfedc_ba98_7654_3210_fedc_ba98_7654_3210,
    };
    (format!("{:032x}{:032x}", state.hi, state.lo), state)
}

fn decode(text: &str) -> Option<Merkle> {
    if text.len() != 64 {
        return None;
    }
    let hi = u128::from_str_radix(&text[..32], 16).ok()?;
    let lo = u128::from_str_radix(&text[32..], 16).ok()?;
    Some(Merkle { hi, lo })
}

fn push_trailer(message: &str) -> Option<PushTrailer> {
    let decoded = push_state_text(message).and_then(|text| decode(&text));
    parse_push_trailer(message, decoded)
}

#[test]
fn test_parse_trailer() {
    let msg = "feat: add auth\n\nAtomic-View: dev\nAtomic-State: ABC123\nAtomic-Changes: HASH1, HASH2\n";
    assert_eq!(parse_trailer(msg, "Atomic-View"), Some("dev".to_string()));
    assert_eq!(
        parse_trailer(msg, "Atomic-State"),
        Some("ABC123".to_string())
    );
    assert_eq!(
        parse_trailer(msg, "Atomic-Changes"),
        Some("HASH1, HASH2".to_string())
    );
    assert_eq!(parse_trailer(msg, "Atomic-Unknown"), None);
}

#[test]
fn test_parse_trailer_whitespace() {
    let msg = "msg\n\nAtomic-View:   spaced  \n";
    assert_eq!(
        parse_trailer(msg, "Atomic-View"),
        Some("spaced".to_string())
    );
}

#[test]
fn test_parse_trailer_empty() {
    let msg = "msg\n\nAtomic-State:\n";
    assert_eq!(parse_trailer(msg, "Atomic-State"), None);
}

#[test]
fn an_empty_trailer_does_not_hide_a_later_one() {
    let msg = "msg\n\nAtomic-State:\nAtomic-State: LATER\r\n";
    assert_eq!(
        parse_header_trailer(msg, "Atomic-State"),
        Some("LATER".to_string())
    );
}

#[test]
fn test_parse_commit_message_subject_only() {
    let (subject, desc) = parse_commit_message("Fix bug");
    assert_eq!(subject, "Fix bug");
    assert!(desc.is_none());
}

#[test]
fn test_parse_commit_message_with_body() {
    let (subject, desc) = parse_commit_message("Fix bug\n\nThis fixes the thing.");
    assert_eq!(subject, "Fix bug");
    assert_eq!(desc, Some("This fixes the thing.".to_string()));
}

#[test]
fn test_parse_commit_message_empty() {
    let (subject, desc) = parse_commit_message("");
    assert_eq!(subject, "(no message)");
    assert!(desc.is_none());
}

#[test]
fn blank_lines_around_the_body_are_dropped() {
    let (subject, desc) = parse_commit_message("  Title \n\n  \n\nfirst\n\nsecond\n\n");
    assert_eq!(subject, "Title");
    assert_eq!(desc, Some("first\n\nsecond".to_string()));
    assert_eq!(full_message("Title", desc.as_deref()), "Title\n\nfirst\n\nsecond");
    assert_eq!(full_message("Title", None), "Title");
}

#[test]
fn test_parse_push_trailer_full_message() {
    let (state_b32, state) = test_state();
    let msg = format!(
        "feat: add greet\n\nSome body text.\n\nAtomic-View: main\nAtomic-State: {}\nAtomic-Changes: ABC, DEF\n",
        state_b32
    );
    let trailer = push_trailer(&msg).expect("should parse");
    assert_eq!(trailer.view, "main");
    assert_eq!(trailer.state, state);
    assert_eq!(trailer.changes, vec!["ABC".to_string(), "DEF".to_string()]);
}

#[test]
fn test_parse_push_trailer_without_changes_trailer() {
    let (state_b32, state) = test_state();
    let msg = format!(
        "Working copy changes\n\nAtomic-View: dev\nAtomic-State: {}",
        state_b32
    );
    let trailer = push_trailer(&msg).expect("should parse");
    assert_eq!(trailer.view, "dev");
    assert_eq!(trailer.state, state);
}

#[test]
fn test_parse_push_trailer_rejects_embedded_trailers() {
    let (state_b32, _) = test_state();
    let msg = format!(
        "feat: add greet (#42)\n\n* feat: add greet\n\nAtomic-View: main\nAtomic-State: {}\nAtomic-Changes: ABC\n\nCo-authored-by: Dana <dana@acme.dev>",
        state_b32
    );
    assert!(push_trailer(&msg).is_none());
}

#[test]
fn test_parse_push_trailer_rejects_mixed_final_paragraph() {
    let (state_b32, _) = test_state();
    let msg = format!(
        "feat: add greet\n\nAtomic-View: main\nAtomic-State: {}\nsome stray line",
        state_b32
    );
    assert!(push_trailer(&msg).is_none());
}

#[test]
fn test_parse_push_trailer_rejects_missing_state() {
    assert!(push_trailer("msg\n\nAtomic-View: main").is_none());
}

#[test]
fn test_parse_push_trailer_rejects_invalid_state() {
    assert!(
        push_trailer("msg\n\nAtomic-View: main\nAtomic-State: not-valid-base32!!").is_none()
    );
}

#[test]
fn test_parse_push_trailer_empty_message() {
    assert!(push_trailer("").is_none());
    assert!(push_trailer("plain subject, no trailers").is_none());
}

#[test]
fn publication_claims_may_stand_in_the_push_block() {
    let (state_b32, state) = test_state();
    let msg = format!(
        "body\n\nAtomic-View: main\nAtomic-State: {}\nAtomic-Manifest: M\nAtomic-Policy: P\nAtomic-Algorithm: sha1\nAtomic-Tree: T\n",
        state_b32
    );
    assert_eq!(push_trailer(&msg).expect("should parse").state, state);
    // The last state decides, even when it does not decode.
    let msg = format!("{}Atomic-State: broken\n", msg);
    assert!(push_trailer(&msg).is_none());
}

#[test]
fn test_parse_pr_number_github_squash() {
    assert_eq!(parse_pr_number("feat: add login (#42)"), Some(42));
}

#[test]
fn test_parse_pr_number_merge_pull_request() {
    assert_eq!(
        parse_pr_number("Merge pull request #123 from user/branch"),
        Some(123)
    );
}

#[test]
fn test_parse_pr_number_none() {
    assert_eq!(parse_pr_number("fix: typo"), None);
}

#[test]
fn test_parse_pr_number_gitlab() {
    assert_eq!(
        parse_pr_number("See merge request mygroup/myproject!42"),
        Some(42)
    );
}

#[test]
fn test_parse_pr_number_azure_devops() {
    assert_eq!(parse_pr_number("Merged PR 99: add feature"), Some(99));
}

#[test]
fn pr_numbers_at_the_edges() {
    assert_eq!(parse_pr_number("a (#1) b (#2)"), Some(2));
    assert_eq!(parse_pr_number("a (#+7)"), Some(7));
    assert_eq!(parse_pr_number("a (#x)"), None);
    assert_eq!(parse_pr_number("max (#4294967295)"), Some(4_294_967_295));
    assert_eq!(parse_pr_number("over (#4294967296)"), None);
    assert_eq!(parse_pr_number("wow!12 but more"), None);
    assert_eq!(parse_pr_number("see !12"), Some(12));
    assert_eq!(parse_pr_number("see !012"), None);
    assert_eq!(parse_pr_number("first\nMerged in x (pull request #5)"), Some(5));
}

#[test]
fn test_parse_atomic_changes_trailer() {
    let msg = "msg\n\nAtomic-Changes: HASH1, HASH2, HASH3";
    let result = parse_atomic_changes_trailer(msg);
    assert_eq!(
        result,
        Some(vec![
            "HASH1".to_string(),
            "HASH2".to_string(),
            "HASH3".to_string()
        ])
    );
}

#[test]
fn test_parse_atomic_changes_trailer_none() {
    assert_eq!(parse_atomic_changes_trailer("normal commit"), None);
}

#[test]
fn test_parse_atomic_changes_trailer_collects_all_blocks() {
    let msg = "\
squash (#2)

* materialize
Atomic-View: a
Atomic-State: S1
Atomic-Changes: AAA, BBB

* materialize
Atomic-View: b
Atomic-State: S2
Atomic-Changes: CCC

Atomic-Changes: DDD, EEE
";
    let hashes = parse_atomic_changes_trailer(msg).expect("should parse");
    assert_eq!(hashes, vec!["AAA", "BBB", "CCC", "DDD", "EEE"]);
}

#[test]
fn test_parse_atomic_changes_trailer_dedups_preserving_order() {
    let msg = "\
squash (#3)

Atomic-Changes: AAA, BBB
Atomic-Changes: BBB, CCC, AAA
";
    let hashes = parse_atomic_changes_trailer(msg).expect("should parse");
    assert_eq!(hashes, vec!["AAA", "BBB", "CCC"]);
}

#[test]
fn empty_pieces_of_a_change_list_are_dropped() {
    assert_eq!(
        split_atomic_changes_value(" A ,, B,\t"),
        vec!["A".to_string(), "B".to_string()]
    );
    assert_eq!(parse_atomic_changes_trailer("x\n\nAtomic-Changes: ,,"), None);
}

#[test]
fn test_parse_squash_format_github() {
    let msg = "Title (#10)\n\n* commit 1\n* commit 2";
    assert_eq!(parse_squash_merge_format(msg), Some(10));
}

#[test]
fn test_parse_squash_format_github_no_bullets() {
    let msg = "Title (#10)\n\nJust a description";
    assert_eq!(parse_squash_merge_format(msg), None);
}

#[test]
fn test_parse_squash_format_github_too_short() {
    assert_eq!(parse_squash_merge_format("Title (#10)"), None);
}

#[test]
fn test_parse_squash_format_gitlab() {
    let msg = "Add feature\n\nSee merge request mygroup/myproject!55";
    assert_eq!(parse_squash_merge_format(msg), Some(55));
}

#[test]
fn test_parse_squash_format_azure_devops() {
    let msg = "Merged PR 77: add login\n\nDetails here";
    assert_eq!(parse_squash_merge_format(msg), Some(77));
}
