//! Errors of the host version-control tool, and the decision logic for
//! installing the post-commit hook.
//!
//! Running the tool, reading and writing hook files, and resolving paths
//! are the embedding's work; what belongs here is the decision: given the
//! existing hook file's text, whether to create a hook, append to it,
//! leave it alone, or refuse.

use vstd::prelude::*;

verus! {

/// An error reported by the host version-control tool: its captured
/// standard error text.
#[derive(Debug)]
pub struct GitError {
    stderr: String,
}

impl View for GitError {
    type V = Seq<char>;

    closed spec fn view(&self) -> Seq<char> {
        self.stderr@
    }
}

impl GitError {
    /// Wrap the tool's error text.
    pub fn new(stderr: &str) -> (e: GitError)
        ensures
            e@ == stderr@,
    {
        GitError { stderr: stderr.to_owned() }
    }

    /// The captured error text.
    pub fn message(&self) -> (r: &str)
        ensures
            r@ == self@,
    {
        self.stderr.as_str()
    }
}

/// `needle` occurs somewhere in `hay`.
pub open spec fn contains_seq(hay: Seq<char>, needle: Seq<char>) -> bool {
    exists|i: int|
        0 <= i <= hay.len() - needle.len() && #[trigger] hay.subrange(i, i + needle.len())
            == needle
}

/// The length of the first line of `s` from `i` on: the index of the
/// first newline, or the whole length.
pub open spec fn first_line_len(s: Seq<char>, i: int) -> int
    decreases s.len() - i
        when 0 <= i <= s.len()
{
    if i >= s.len() {
        i
    } else if s[i] == '\n' {
        i
    } else {
        first_line_len(s, i + 1)
    }
}

/// The first line of `s`.
pub open spec fn first_line(s: Seq<char>) -> Seq<char> {
    s.take(first_line_len(s, 0))
}

/// The defining facts of `first_line_len`.
proof fn lemma_first_line_len(s: Seq<char>, i: int)
    requires
        0 <= i <= s.len(),
    ensures
        i <= first_line_len(s, i) <= s.len(),
    decreases s.len() - i,
{
    if i < s.len() && s[i] != '\n' {
        lemma_first_line_len(s, i + 1);
    }
}

/// The line names one of the shells a hook script may start with.
pub open spec fn shebang_line(l: Seq<char>) -> bool {
    ||| contains_seq(l, "#!/bin/sh"@)
    ||| contains_seq(l, "#!/bin/bash"@)
    ||| contains_seq(l, "#!/bin/zsh"@)
    ||| contains_seq(l, "#!/bin/ash"@)
    ||| contains_seq(l, "#!/usr/bin/env sh"@)
    ||| contains_seq(l, "#!/usr/bin/env bash"@)
    ||| contains_seq(l, "#!/usr/bin/env zsh"@)
    ||| contains_seq(l, "#!/usr/bin/env ash"@)
}

/// What installing the post-commit hook does.
#[derive(Clone, Copy, Debug, PartialEq, Eq, Structural)]
pub enum HookAction {
    /// No hook file exists: create one.
    Create,
    /// The hook already calls this tool: leave it alone.
    AlreadyInstalled,
    /// The hook exists but is not a shell script: refuse to touch it.
    NotScript,
    /// The hook is a shell script without this tool: append the call.
    Append,
}

/// The decision, given the existing hook file's text (if any).  The tool's
/// name cannot span lines, so whole-text containment and any-line
/// containment agree.
pub open spec fn hook_plan_spec(existing: Option<Seq<char>>) -> HookAction {
    match existing {
        None => HookAction::Create,
        Some(s) => if contains_seq(s, "gash"@) {
            HookAction::AlreadyInstalled
        } else if !(s.len() > 0 && shebang_line(first_line(s))) {
            HookAction::NotScript
        } else {
            HookAction::Append
        },
    }
}

/// `needle` stands at position `i` of `hay`.
fn match_at(hay: &str, i: usize, needle: &str) -> (r: bool)
    requires
        i + needle@.len() <= hay@.len(),
    ensures
        r == (hay@.subrange(i as int, i + needle@.len()) == needle@),
{
    let nn = needle.unicode_len();
    let nh = hay.unicode_len();
    let mut k: usize = 0;
    while k < nn
        invariant
            0 <= k <= nn == needle@.len(),
            nh == hay@.len(),
            i + nn <= hay@.len(),
            forall|t: int| 0 <= t < k ==> hay@[i + t] == needle@[t],
        decreases nn - k,
    {
        if hay.get_char(i + k) != needle.get_char(k) {
            proof {
                assert(hay@.subrange(i as int, i + needle@.len())[k as int] == hay@[i + k]);
            }
            return false;
        }
        k = k + 1;
    }
    proof {
        assert(hay@.subrange(i as int, i + needle@.len()) =~= needle@);
    }
    true
}

/// `needle` occurs in `hay`, by scanning.
fn str_contains(hay: &str, needle: &str) -> (r: bool)
    ensures
        r == contains_seq(hay@, needle@),
{
    let nh = hay.unicode_len();
    let nn = needle.unicode_len();
    if nn == 0 {
        proof {
            assert(hay@.subrange(0, 0 + needle@.len() as int) =~= needle@);
        }
        return true;
    }
    if nn > nh {
        return false;
    }
    let mut i: usize = 0;
    while i <= nh - nn
        invariant
            0 <= i <= nh - nn + 1,
            nn >= 1,
            nn <= nh == hay@.len(),
            nn == needle@.len(),
            forall|t: int| 0 <= t < i ==> #[trigger] hay@.subrange(t, t + needle@.len())
                != needle@,
        decreases nh - nn + 1 - i,
    {
        if match_at(hay, i, needle) {
            return true;
        }
        i = i + 1;
    }
    proof {
        if contains_seq(hay@, needle@) {
            let t = choose|t: int|
                0 <= t <= hay@.len() - needle@.len() && #[trigger] hay@.subrange(
                    t,
                    t + needle@.len(),
                ) == needle@;
            assert(t < i);
            assert(false);
        }
    }
    false
}

/// The length of the first line, by scanning.
fn line_len(s: &str) -> (r: usize)
    ensures
        r as int == first_line_len(s@, 0),
{
    let n = s.unicode_len();
    let mut e: usize = 0;
    while e < n
        invariant
            0 <= e <= n == s@.len(),
            first_line_len(s@, 0) == first_line_len(s@, e as int),
        decreases n - e,
    {
        if s.get_char(e) == '\n' {
            return e;
        }
        e = e + 1;
    }
    e
}

/// The decision for the post-commit hook, from the existing hook file's
/// text.
pub fn plan_post_commit_hook(existing: Option<&str>) -> (r: HookAction)
    ensures
        r == hook_plan_spec(
            match existing {
                Some(s) => Some(s@),
                None => None::<Seq<char>>,
            },
        ),
{
    let content = match existing {
        None => {
            return HookAction::Create;
        },
        Some(s) => s,
    };
    if str_contains(content, "gash") {
        return HookAction::AlreadyInstalled;
    }
    let n = content.unicode_len();
    if n == 0 {
        return HookAction::NotScript;
    }
    let e = line_len(content);
    proof {
        lemma_first_line_len(content@, 0);
    }
    let line = content.substring_char(0, e);
    proof {
        assert(line@ == first_line(content@));
    }
    let script = str_contains(line, "#!/bin/sh") || str_contains(line, "#!/bin/bash")
        || str_contains(line, "#!/bin/zsh") || str_contains(line, "#!/bin/ash") || str_contains(
        line,
        "#!/usr/bin/env sh",
    ) || str_contains(line, "#!/usr/bin/env bash") || str_contains(line, "#!/usr/bin/env zsh")
        || str_contains(line, "#!/usr/bin/env ash");
    if script {
        HookAction::Append
    } else {
        HookAction::NotScript
    }
}

} // verus!
