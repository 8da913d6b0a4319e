//! A member's dealings with the coordinator of its group.
use vstd::prelude::*;
use vstd::string::StringExecFns;

use crate::api::broker::{HeartbeatRequest, LeaveGroupRequest};
use crate::client::joining::{JoinFailure, Joining, JoiningView};
use crate::maps::Dup;
use crate::text::{
    decimal, decimal_text, decimal_u64, last_part, last_part_joined, padded_has_no_sign, padded_reads_back,
};

verus! {

/// A member of a group, with its partitions.
#[derive(Debug)]
pub struct GroupSession {
    pub group_id: String,
    pub member_id: String,
    pub generation_id: i32,
    pub assigned_partitions: Vec<i32>,
}

/// What a heartbeat tells a member.
#[derive(Debug, Clone, Copy, PartialEq, Eq)]
pub enum CoordSignal {
    Healthy,
    RejoinRequired,
}

/// Why a coordinator was of no help.
#[derive(Debug)]
pub enum CoordError {
    Unavailable(String),
    JoinFailed(String),
    SyncFailed(String),
    HeartbeatFailed(String),
    LeaveFailed(String),
}

/// How an error is shown.
pub open spec fn coord_error_text(e: CoordError) -> Seq<char> {
    match e {
        CoordError::Unavailable(m) => "group coordinator not available: "@ + m@,
        CoordError::JoinFailed(m) => "join group failed: "@ + m@,
        CoordError::SyncFailed(m) => "sync group failed: "@ + m@,
        CoordError::HeartbeatFailed(m) => "heartbeat failed: "@ + m@,
        CoordError::LeaveFailed(m) => "leave group failed: "@ + m@,
    }
}

impl CoordError {
    /// The error in words.
    pub fn to_string(&self) -> (r: String)
        ensures
            r@ == coord_error_text(*self),
    {
        let (mut r, m) = match self {
            CoordError::Unavailable(m) => ("group coordinator not available: ".to_owned(), m),
            CoordError::JoinFailed(m) => ("join group failed: ".to_owned(), m),
            CoordError::SyncFailed(m) => ("sync group failed: ".to_owned(), m),
            CoordError::HeartbeatFailed(m) => ("heartbeat failed: ".to_owned(), m),
            CoordError::LeaveFailed(m) => ("leave group failed: ".to_owned(), m),
        };
        r.append(m.as_str());
        r
    }
}

/// The code by which a coordinator says that a rebalance is under way.
pub const REBALANCE_IN_PROGRESS: i32 = 27;

/// How a refusal with a code is described.
pub open spec fn code_text(error_code: i32) -> Seq<char> {
    "error_code="@ + decimal_text(error_code as int)
}

fn describe_code(error_code: i32) -> (r: String)
    ensures
        r@ == code_text(error_code),
{
    let mut r = "error_code=".to_owned();
    r.append(decimal(error_code as i64).as_str());
    r
}

/// How a member speaks to the coordinator of its group.
pub struct GrpcConsumerGroupCoordinator;

impl GrpcConsumerGroupCoordinator {
    /// Begins to join a group, under a known name or a fresh one.
    pub fn open(
        group_id: &String,
        topic: &String,
        session_timeout_ms: i64,
        member_id_hint: Option<String>,
        fresh_id: String,
    ) -> (r: Joining)
        ensures
            r@ == (JoiningView {
                group_id: group_id@,
                topic: topic@,
                session_timeout: session_timeout_ms as i32,
                rebalance_code: REBALANCE_IN_PROGRESS,
                step_ms: 300,
                attempt: 0,
                member_id: match member_id_hint {
                    Some(m) => m@,
                    None => fresh_id@,
                },
                generation_id: 0,
            }),
    {
        let member_id = match member_id_hint {
            Some(m) => m,
            None => fresh_id,
        };
        Joining::new(
            group_id.dup(),
            topic.dup(),
            #[verifier::truncate]
            (session_timeout_ms as i32),
            REBALANCE_IN_PROGRESS,
            300,
            member_id,
        )
    }

    /// The error with which a join ends.
    pub fn open_failed(group_id: &String, failure: JoinFailure) -> (r: CoordError)
        ensures
            match failure {
                JoinFailure::Join { error_code } => r matches CoordError::JoinFailed(m) && m@ == code_text(error_code),
                JoinFailure::Sync { error_code } => r matches CoordError::SyncFailed(m) && m@ == code_text(error_code),
                JoinFailure::Rebalancing => r matches CoordError::JoinFailed(m) && m@
                    == "persistent REBALANCE_IN_PROGRESS for group '"@ + group_id@ + "'"@,
            },
    {
        match failure {
            JoinFailure::Join { error_code } => CoordError::JoinFailed(describe_code(error_code)),
            JoinFailure::Sync { error_code } => CoordError::SyncFailed(describe_code(error_code)),
            JoinFailure::Rebalancing => {
                let mut m = "persistent REBALANCE_IN_PROGRESS for group '".to_owned();
                m.append(group_id.as_str());
                m.append("'");
                CoordError::JoinFailed(m)
            },
        }
    }

    /// The request that says that the member is alive.
    pub fn heartbeat_request(session: &GroupSession) -> (r: HeartbeatRequest)
        ensures
            r.group_id@ == session.group_id@,
            r.generation_id == session.generation_id,
            r.member_id@ == session.member_id@,
    {
        HeartbeatRequest {
            group_id: session.group_id.dup(),
            generation_id: session.generation_id,
            member_id: session.member_id.dup(),
        }
    }

    /// What the answer to a heartbeat means.
    pub fn heartbeat(error_code: i32) -> (r: Result<CoordSignal, CoordError>)
        ensures
            match error_code {
                0 => r == Ok::<CoordSignal, CoordError>(CoordSignal::Healthy),
                27 => r == Ok::<CoordSignal, CoordError>(CoordSignal::RejoinRequired),
                _ => r matches Err(CoordError::HeartbeatFailed(m)) && m@ == code_text(error_code),
            },
    {
        match error_code {
            0 => Ok(CoordSignal::Healthy),
            27 => Ok(CoordSignal::RejoinRequired),
            _ => Err(CoordError::HeartbeatFailed(describe_code(error_code))),
        }
    }

    /// The request to leave the group.
    pub fn leave_request(session: &GroupSession) -> (r: LeaveGroupRequest)
        ensures
            r.group_id@ == session.group_id@,
            r.member_id@ == session.member_id@,
    {
        LeaveGroupRequest { group_id: session.group_id.dup(), member_id: session.member_id.dup() }
    }

    /// What the answer to a leave means.
    pub fn leave(error_code: i32) -> (r: Result<(), CoordError>)
        ensures
            if error_code == 0 {
                r is Ok
            } else {
                r matches Err(CoordError::LeaveFailed(m)) && m@ == code_text(error_code)
            },
    {
        if error_code == 0 {
            Ok(())
        } else {
            Err(CoordError::LeaveFailed(describe_code(error_code)))
        }
    }
}

/// A name for a member: the time, the process and a count, separated by dashes.
pub open spec fn fresh_name(secs: u64, nanos: u32, pid: u32, count: u64) -> Seq<char> {
    decimal_text(secs as int) + "-"@ + decimal_text(nanos as int) + "-"@ + decimal_text(pid as int) + "-"@
        + decimal_text(count as int)
}

/// A name for a member.
pub fn uuid_simple(secs: u64, nanos: u32, pid: u32, count: u64) -> (r: String)
    ensures
        r@ == fresh_name(secs, nanos, pid, count),
{
    let mut r = decimal_u64(secs);
    r.append("-");
    r.append(decimal_u64(nanos as u64).as_str());
    r.append("-");
    r.append(decimal_u64(pid as u64).as_str());
    r.append("-");
    r.append(decimal_u64(count).as_str());
    r
}

/// Names with different counts differ, whatever the clock and the process.
pub proof fn fresh_names_differ(s: u64, n: u32, p: u32, c: u64, s2: u64, n2: u32, p2: u32, c2: u64)
    requires
        c != c2,
    ensures
        fresh_name(s, n, p, c) != fresh_name(s2, n2, p2, c2),
{
    lemma_count_is_last(s, n, p, c);
    lemma_count_is_last(s2, n2, p2, c2);
    padded_reads_back(c as int, 0);
    padded_reads_back(c2 as int, 0);
}

proof fn lemma_count_is_last(s: u64, n: u32, p: u32, c: u64)
    ensures
        last_part(fresh_name(s, n, p, c), '-') == decimal_text(c as int),
{
    let front = decimal_text(s as int) + "-"@ + decimal_text(n as int) + "-"@ + decimal_text(p as int);
    let last = decimal_text(c as int);
    reveal_strlit("-");
    assert(fresh_name(s, n, p, c) =~= front + seq!['-'] + last);
    padded_has_no_sign(c as int, 0);
    last_part_joined(front, last, '-');
}

} // verus!
