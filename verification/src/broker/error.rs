//! What can go wrong in the broker, and how it is written on the wire.
use vstd::prelude::*;

use crate::maps::Dup;
use crate::text::{has_prefix, strip_prefix};

verus! {

/// An error of the broker.
#[derive(Debug)]
pub enum BrokerError {
    /// Another broker leads; its address, where it is known.
    NotLeader { leader_addr: Option<String> },
    RebalanceInProgress,
    Validation(String),
    NotFound(String),
    Internal(String),
}

/// The result of a broker operation.
pub type BrokerResult<T> = Result<T, BrokerError>;

/// What an error says.
#[verifier::ext_equal]
pub enum ErrorView {
    NotLeader { leader_addr: Option<Seq<char>> },
    RebalanceInProgress,
    Validation(Seq<char>),
    NotFound(Seq<char>),
    Internal(Seq<char>),
}

impl DeepView for BrokerError {
    type V = ErrorView;

    open spec fn deep_view(&self) -> ErrorView {
        match self {
            BrokerError::NotLeader { leader_addr } => ErrorView::NotLeader { leader_addr: leader_addr.deep_view() },
            BrokerError::RebalanceInProgress => ErrorView::RebalanceInProgress,
            BrokerError::Validation(m) => ErrorView::Validation(m@),
            BrokerError::NotFound(m) => ErrorView::NotFound(m@),
            BrokerError::Internal(m) => ErrorView::Internal(m@),
        }
    }
}

impl Dup for BrokerError {
    fn dup(&self) -> (r: Self) {
        match self {
            BrokerError::NotLeader { leader_addr } => BrokerError::NotLeader { leader_addr: leader_addr.dup() },
            BrokerError::RebalanceInProgress => BrokerError::RebalanceInProgress,
            BrokerError::Validation(m) => BrokerError::Validation(m.dup()),
            BrokerError::NotFound(m) => BrokerError::NotFound(m.dup()),
            BrokerError::Internal(m) => BrokerError::Internal(m.dup()),
        }
    }
}

/// The error that a message stands for.
pub open spec fn error_of_message(message: Seq<char>) -> ErrorView {
    if has_prefix(message, "NOT_LEADER:"@) {
        let addr = message.skip("NOT_LEADER:"@.len() as int);
        ErrorView::NotLeader { leader_addr: if addr.len() == 0 { None } else { Some(addr) } }
    } else if message == "REBALANCE_IN_PROGRESS"@ {
        ErrorView::RebalanceInProgress
    } else {
        ErrorView::Internal(message)
    }
}

/// The message of an error.
pub open spec fn message_of_error(e: ErrorView) -> Seq<char> {
    match e {
        ErrorView::NotLeader { leader_addr: Some(addr) } => "NOT_LEADER:"@ + addr,
        ErrorView::NotLeader { leader_addr: None } => "NOT_LEADER:"@,
        ErrorView::RebalanceInProgress => "REBALANCE_IN_PROGRESS"@,
        ErrorView::Validation(m) => m,
        ErrorView::NotFound(m) => m,
        ErrorView::Internal(m) => m,
    }
}

impl BrokerError {
    /// Reads an error from its message.
    pub fn from_message(message: String) -> (r: Self)
        ensures
            r.deep_view() == error_of_message(message@),
    {
        if let Some(addr) = strip_prefix(message.as_str(), "NOT_LEADER:") {
            let leader_addr = if addr.as_str().is_empty() { None } else { Some(addr) };
            return BrokerError::NotLeader { leader_addr };
        }
        if message == "REBALANCE_IN_PROGRESS".to_owned() {
            return BrokerError::RebalanceInProgress;
        }
        BrokerError::Internal(message)
    }

    /// The address of the leader, where the error names one.
    pub fn leader_addr(&self) -> (r: Option<&str>)
        ensures
            match (r, self.deep_view()) {
                (Some(a), ErrorView::NotLeader { leader_addr: Some(b) }) => a@ == b,
                (None, ErrorView::NotLeader { leader_addr: None }) => true,
                (None, e) => !(e is NotLeader),
                _ => false,
            },
    {
        match self {
            BrokerError::NotLeader { leader_addr } => match leader_addr {
                Some(a) => Some(a.as_str()),
                None => None,
            },
            _ => None,
        }
    }

    /// The message of the error.
    pub fn to_string(&self) -> (r: String)
        ensures
            r@ == message_of_error(self.deep_view()),
    {
        match self {
            BrokerError::NotLeader { leader_addr } => {
                let mut r = "NOT_LEADER:".to_owned();
                match leader_addr {
                    Some(a) => {
                        vstd::string::StringExecFns::append(&mut r, a.as_str());
                    },
                    None => {},
                }
                r
            },
            BrokerError::RebalanceInProgress => "REBALANCE_IN_PROGRESS".to_owned(),
            BrokerError::Validation(m) => m.dup(),
            BrokerError::NotFound(m) => m.dup(),
            BrokerError::Internal(m) => m.dup(),
        }
    }
}

/// An error that names its leader, or that a rebalance is going on, survives being
/// written out and read back.
pub proof fn message_reads_back(e: ErrorView)
    requires
        e is RebalanceInProgress || e is NotLeader,
        e matches ErrorView::NotLeader { leader_addr: Some(a) } ==> a.len() > 0,
    ensures
        error_of_message(message_of_error(e)) == e,
{
    reveal_strlit("NOT_LEADER:");
    reveal_strlit("REBALANCE_IN_PROGRESS");
    let p = "NOT_LEADER:"@;
    match e {
        ErrorView::NotLeader { leader_addr: Some(a) } => {
            assert((p + a).take(p.len() as int) =~= p);
            assert((p + a).skip(p.len() as int) =~= a);
        },
        ErrorView::NotLeader { leader_addr: None } => {
            assert(p.take(p.len() as int) =~= p);
        },
        _ => {
            let m = "REBALANCE_IN_PROGRESS"@;
            assert(m[0] == 'R' && p[0] == 'N');
            if has_prefix(m, p) {
                assert(m.take(p.len() as int)[0] == m[0]);
            }
        },
    }
}

/// What a message stands for: another leader where it begins so, with the address that
/// follows if one does; a rebalance; and otherwise a failure in these words.
pub proof fn messages_stand_for_errors(addr: Seq<char>, m: Seq<char>)
    ensures
        addr.len() > 0 ==> error_of_message("NOT_LEADER:"@ + addr) == (ErrorView::NotLeader { leader_addr: Some(addr) }),
        error_of_message("NOT_LEADER:"@) == (ErrorView::NotLeader { leader_addr: None }),
        error_of_message("REBALANCE_IN_PROGRESS"@) is RebalanceInProgress,
        !has_prefix(m, "NOT_LEADER:"@) && m != "REBALANCE_IN_PROGRESS"@ ==> error_of_message(m) == ErrorView::Internal(m),
        message_of_error(ErrorView::Validation(m)) == m,
        message_of_error(ErrorView::NotFound(m)) == m,
        message_of_error(ErrorView::Internal(m)) == m,
{
    if addr.len() > 0 {
        message_reads_back(ErrorView::NotLeader { leader_addr: Some(addr) });
    }
    message_reads_back(ErrorView::NotLeader { leader_addr: None });
    message_reads_back(ErrorView::RebalanceInProgress);
}

} // verus!
