use vstd::prelude::*;

verus! {

/// Failures reported by the task store, the name resolver and the sync planner.
#[derive(Debug, Clone)]
pub enum YakError {
    /// The path breaks the segment rules.
    InvalidName(String),
    /// No task answers to the name.
    NotFound(String),
    /// Several tasks contain the search term.
    Ambiguous(String),
    /// A direct child of the task is not done yet.
    HasIncompleteChildren(String),
    /// A rename would land on an existing task or inside the moved subtree.
    DestinationExists(String),
    /// The working directory is not under version control.
    NotARepository,
    /// No `origin` remote is configured.
    NoRemote,
    /// The task directory is tracked by ordinary version control.
    NotIgnored,
    /// An underlying storage or tool failure.
    IoFailure(String),
}

/// The mathematical value of a `YakError`.
pub enum ErrorView {
    InvalidName(Seq<char>),
    NotFound(Seq<char>),
    Ambiguous(Seq<char>),
    HasIncompleteChildren(Seq<char>),
    DestinationExists(Seq<char>),
    NotARepository,
    NoRemote,
    NotIgnored,
    IoFailure(Seq<char>),
}

impl View for YakError {
    type V = ErrorView;

    open spec fn view(&self) -> ErrorView {
        match self {
            YakError::InvalidName(s) => ErrorView::InvalidName(s@),
            YakError::NotFound(s) => ErrorView::NotFound(s@),
            YakError::Ambiguous(s) => ErrorView::Ambiguous(s@),
            YakError::HasIncompleteChildren(s) => ErrorView::HasIncompleteChildren(s@),
            YakError::DestinationExists(s) => ErrorView::DestinationExists(s@),
            YakError::NotARepository => ErrorView::NotARepository,
            YakError::NoRemote => ErrorView::NoRemote,
            YakError::NotIgnored => ErrorView::NotIgnored,
            YakError::IoFailure(s) => ErrorView::IoFailure(s@),
        }
    }
}

/// The error of a result, as a value, or `None` on success.
pub open spec fn err_view<T>(r: Result<T, YakError>) -> Option<ErrorView> {
    match r {
        Ok(_) => None,
        Err(e) => Some(e@),
    }
}

impl YakError {
    /// A one-line message for the user.
    pub fn message(&self) -> (r: String) {
        let mut m = String::new();
        match self {
            YakError::InvalidName(s) => {
                m.append("Error: invalid yak name '");
                m.append(s.as_str());
                m.append("'");
            },
            YakError::NotFound(s) => {
                m.append("Error: yak '");
                m.append(s.as_str());
                m.append("' not found");
            },
            YakError::Ambiguous(s) => {
                m.append("Error: yak name '");
                m.append(s.as_str());
                m.append("' is ambiguous");
            },
            YakError::HasIncompleteChildren(s) => {
                m.append("Error: cannot mark '");
                m.append(s.as_str());
                m.append("' as done - it has incomplete children");
            },
            YakError::DestinationExists(s) => {
                m.append("Error: cannot move to '");
                m.append(s.as_str());
                m.append("'");
            },
            YakError::NotARepository => {
                m.append("Error: not in a git repository");
            },
            YakError::NoRemote => {
                m.append("Error: no origin remote configured");
            },
            YakError::NotIgnored => {
                m.append(
                    "Error: .yaks folder is not gitignored\nPlease add .yaks to your .gitignore file",
                );
            },
            YakError::IoFailure(s) => {
                m.append(s.as_str());
            },
        }
        m
    }
}

} // verus!
