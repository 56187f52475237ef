use gash::error::GashError;
use gash::git::{plan_post_commit_hook, GitError, HookAction};

#[test]
fn creates_hook_when_none_exists() {
    assert_eq!(HookAction::Create, plan_post_commit_hook(None));
}

#[test]
fn leaves_hook_that_already_calls_the_tool() {
    let hook = "#!/bin/sh\necho before\ngash\n";
    assert_eq!(HookAction::AlreadyInstalled, plan_post_commit_hook(Some(hook)));
}

#[test]
fn refuses_non_script_hook() {
    assert_eq!(HookAction::NotScript, plan_post_commit_hook(Some("")));
    assert_eq!(HookAction::NotScript, plan_post_commit_hook(Some("echo hi\n")));
    // The shebang counts only on the first line.
    assert_eq!(
        HookAction::NotScript,
        plan_post_commit_hook(Some("echo hi\n#!/bin/sh\n"))
    );
}

#[test]
fn appends_to_a_plain_shell_script() {
    for shebang in [
        "#!/bin/sh",
        "#!/bin/bash",
        "#!/bin/zsh",
        "#!/bin/ash",
        "#!/usr/bin/env sh",
        "#!/usr/bin/env bash",
        "#!/usr/bin/env zsh",
        "#!/usr/bin/env ash",
    ] {
        let hook = format!("{}\necho hi\n", shebang);
        assert_eq!(HookAction::Append, plan_post_commit_hook(Some(&hook)));
    }
}

#[test]
fn git_error_keeps_its_text() {
    let e = GitError::new("fatal: not a git repository");
    assert_eq!("fatal: not a git repository", e.message());
}

#[test]
fn error_messages_name_the_cause() {
    assert!(GashError::NoSignature.message().contains("signature"));
    assert!(GashError::SignatureTooLong.message().contains("40"));
    assert!(GashError::SignatureNotHex.message().contains("a-z0-9"));
    assert!(GashError::BadMaxVariance.message().contains("variance"));
    assert!(GashError::MissingTimestamps.message().contains("timestamp"));
    assert!(GashError::TimestampOutOfRange.message().contains("timestamp"));
}
