use changelog::imports::commit_msg::{CommitMessage, CommitMessageAnalyzer};

#[test]
fn revert_commit() {
    let cmp = CommitMessageAnalyzer::init();
    let commit = cmp.analyze("Revert \"Some ultracool stuff\"");
    match commit {
        CommitMessage::Revert { orig_msg } => {
            assert_eq!(orig_msg, "Some ultracool stuff");
        }
        _ => panic!(""),
    }
}

#[test]
fn pr_merge_commit() {
    let cmp = CommitMessageAnalyzer::init();
    let commit = cmp.analyze("Merge pull request #1234 from pk/some-pr-branch\n\nHere is the PR title");
    match commit {
        CommitMessage::Contribution { component: _, refs, subject, details: _ } => {
            assert_eq!(refs[0], "PR#1234");
            assert_eq!(subject, "Here is the PR title");
        }
        _ => panic!(""),
    }
}

#[test]
fn pr_merge_squash() {
    let cmp = CommitMessageAnalyzer::init();
    let commit = cmp.analyze("[cpp] disable tree shap computing when tree model doesn't use input features (#1073)");
    match commit {
        CommitMessage::Contribution { component: _, refs, subject, details: _ } => {
            assert_eq!(refs[0], "PR#1073");
            assert_eq!(subject, "[cpp] disable tree shap computing when tree model doesn't use input features");
        }
        _ => panic!(""),
    }
}

#[test]
fn pr_kk_close() {
    let cmp = CommitMessageAnalyzer::init();
    let commit = cmp.analyze("[py] not throw exception from daimojo package. close# 977 (#979)");
    match commit {
        CommitMessage::Contribution { component: _, refs, subject, details: _ } => {
            assert_eq!(refs.len(), 2);
            assert_eq!(refs[0], "PR#979");
            assert_eq!(refs[1], "#977");
            assert_eq!(subject, "[py] not throw exception from daimojo package");
        }
        _ => panic!(""),
    }
}

#[test]
fn rls_commit() {
    let cmp = CommitMessageAnalyzer::init();
    let commit = cmp.analyze("[BUILD] Release v2.5.0");
    match commit {
        CommitMessage::Release { version } => {
            assert_eq!(version, "2.5.0");
        }
        _ => panic!(""),
    }
}

#[test]
fn empty_message_is_empty_contribution() {
    let cmp = CommitMessageAnalyzer::init();
    match cmp.analyze("  \n ") {
        CommitMessage::Contribution { component, refs, subject, details } => {
            assert_eq!(component, "");
            assert!(refs.is_empty());
            assert_eq!(subject, "");
            assert_eq!(details, "");
        }
        _ => panic!("contribution expected"),
    }
}

#[test]
fn plain_commit_is_contribution_to_na() {
    let cmp = CommitMessageAnalyzer::init();
    match cmp.analyze("Fix the parser\n\nLonger explanation") {
        CommitMessage::Contribution { component, refs, subject, .. } => {
            assert_eq!(component, "N/A");
            assert!(refs.is_empty());
            assert_eq!(subject, "Fix the parser");
        }
        _ => panic!("contribution expected"),
    }
}

#[test]
fn release_word_forms_and_case() {
    let cmp = CommitMessageAnalyzer::init();
    match cmp.analyze("RELEASED version 1.2-3 finally") {
        CommitMessage::Release { version } => assert_eq!(version, "1.2-3"),
        _ => panic!("release expected"),
    }
    match cmp.analyze("Prerelease fix") {
        CommitMessage::Contribution { subject, .. } => assert_eq!(subject, "Prerelease fix"),
        _ => panic!("contribution expected"),
    }
}

#[test]
fn release_takes_precedence_over_pull_request() {
    let cmp = CommitMessageAnalyzer::init();
    match cmp.analyze("Release 3.0 (#12)") {
        CommitMessage::Release { version } => assert_eq!(version, "3.0"),
        _ => panic!("release expected"),
    }
}

#[test]
fn merge_commit_without_body_keeps_first_line() {
    let cmp = CommitMessageAnalyzer::init();
    match cmp.analyze("Merge pull request #7 from me/x") {
        CommitMessage::Contribution { component, refs, subject, .. } => {
            assert_eq!(component, "");
            assert_eq!(refs, vec!["PR#7".to_string()]);
            assert_eq!(subject, "Merge pull request #7 from me/x");
        }
        _ => panic!("contribution expected"),
    }
}

#[test]
fn closes_fragment_in_middle() {
    let cmp = CommitMessageAnalyzer::init();
    match cmp.analyze("Fix crash CLOSES #12 in parser (#40)") {
        CommitMessage::Contribution { refs, subject, .. } => {
            assert_eq!(refs, vec!["PR#40".to_string(), "#12".to_string()]);
            assert_eq!(subject, "Fix crash in parser");
        }
        _ => panic!("contribution expected"),
    }
}

#[test]
fn bare_revert_prefix_is_no_revert() {
    let cmp = CommitMessageAnalyzer::init();
    match cmp.analyze("Revert \"") {
        CommitMessage::Contribution { subject, .. } => assert_eq!(subject, "Revert \""),
        _ => panic!("contribution expected"),
    }
    match cmp.analyze("Revert \"\"") {
        CommitMessage::Revert { orig_msg } => assert_eq!(orig_msg, ""),
        _ => panic!("revert expected"),
    }
}
