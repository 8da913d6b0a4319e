//! How a consumer gets into a group: it joins, it asks for its partitions, and while
//! the group is being rebalanced it tries again, a bounded number of times.
use vstd::prelude::*;
use vstd::utf8::encode_utf8;

use crate::api::broker::{
    GroupProtocol, JoinGroupRequest, JoinGroupResponse, SyncGroupRequest, SyncGroupResponse,
};
use crate::maps::Dup;
use crate::wire::{decode_i32_list, i32_list, lemma_list_len, one_list_in_front};

verus! {

/// How often a member tries to join.
pub const MAX_ATTEMPTS: u32 = 5;

/// A member on its way into a group.
pub struct Joining {
    group_id: String,
    topic: String,
    session_timeout: i32,
    rebalance_code: i32,
    step_ms: u32,
    attempt: u32,
    member_id: String,
    generation_id: i32,
}

/// How far a member has come.
#[verifier::ext_equal]
pub struct JoiningView {
    pub group_id: Seq<char>,
    pub topic: Seq<char>,
    pub session_timeout: i32,
    /// The code by which a broker says that a rebalance is under way.
    pub rebalance_code: i32,
    /// By how much every pause is longer than the one before.
    pub step_ms: u32,
    /// How many attempts have failed.
    pub attempt: int,
    pub member_id: Seq<char>,
    pub generation_id: i32,
}

/// Why a member did not get into a group.
#[derive(Debug, Clone, Copy, PartialEq, Eq)]
pub enum JoinFailure {
    /// The join was refused with a code.
    Join { error_code: i32 },
    /// The partitions were refused with a code.
    Sync { error_code: i32 },
    /// The group was being rebalanced at every attempt.
    Rebalancing,
}

/// What a member does next.
#[derive(Debug)]
pub enum JoiningStep {
    /// Waits and joins again.
    Retry { delay_ms: u64 },
    /// Asks for its partitions.
    Sync { request: SyncGroupRequest },
    /// Is a member, with these partitions.
    Joined { partitions: Vec<i32>, member_id: String, generation_id: i32 },
    /// Gives up.
    Failed { failure: JoinFailure },
}

/// The pause before the next attempt, if there is one.
pub open spec fn pause(v: JoiningView) -> Option<int> {
    if v.attempt + 1 < MAX_ATTEMPTS {
        Some(v.step_ms * (v.attempt + 1))
    } else {
        None
    }
}

/// A failed attempt is counted, unless it was the last.
pub open spec fn counted(v: JoiningView) -> JoiningView {
    if v.attempt + 1 < MAX_ATTEMPTS {
        JoiningView { attempt: v.attempt + 1, ..v }
    } else {
        v
    }
}

/// The step after a failed attempt.
pub open spec fn is_retry(step: JoiningStep, v: JoiningView) -> bool {
    match pause(v) {
        Some(ms) => step matches JoiningStep::Retry { delay_ms } && delay_ms == ms,
        None => step == (JoiningStep::Failed { failure: JoinFailure::Rebalancing }),
    }
}

/// The request for the own partitions.
pub open spec fn is_sync_request(r: SyncGroupRequest, v: JoiningView) -> bool {
    &&& r.group_id@ == v.group_id
    &&& r.generation_id == v.generation_id
    &&& r.member_id@ == v.member_id
    &&& r.group_assignment@.len() == 0
}

/// The partitions that an assignment holds; none where it holds no list.
pub open spec fn is_assignment(partitions: Seq<i32>, bytes: Seq<u8>) -> bool {
    if exists|s: Seq<i32>| (#[trigger] i32_list(s)).is_prefix_of(bytes) {
        i32_list(partitions).is_prefix_of(bytes)
    } else {
        partitions.len() == 0
    }
}

/// An assignment holds one list of partitions.
pub proof fn assignment_is_unique(a: Seq<i32>, b: Seq<i32>, bytes: Seq<u8>)
    requires
        is_assignment(a, bytes),
        is_assignment(b, bytes),
        bytes.len() <= u64::MAX,
    ensures
        a == b,
{
    lemma_list_len(a);
    lemma_list_len(b);
    if exists|s: Seq<i32>| (#[trigger] i32_list(s)).is_prefix_of(bytes) {
        one_list_in_front(a, b, bytes);
    } else {
        assert(a =~= b);
    }
}

/// A leader's list of partitions reaches the member unchanged.
pub proof fn assignment_reads_back(partitions: Seq<i32>)
    ensures
        is_assignment(partitions, i32_list(partitions)),
{
    assert(i32_list(partitions).is_prefix_of(i32_list(partitions)));
}

/// The partitions of an assignment.
pub fn read_assignment(bytes: &Vec<u8>) -> (r: Vec<i32>)
    ensures
        is_assignment(r@, bytes@),
{
    match decode_i32_list(bytes.as_slice()) {
        Some(list) => {
            assert(i32_list(list@).is_prefix_of(bytes@));
            list
        },
        None => Vec::new(),
    }
}

impl Joining {
    #[verifier::type_invariant]
    spec fn bounded(&self) -> bool {
        self.attempt < MAX_ATTEMPTS
    }

    /// How far the member has come.
    pub closed spec fn view(&self) -> JoiningView {
        JoiningView {
            group_id: self.group_id@,
            topic: self.topic@,
            session_timeout: self.session_timeout,
            rebalance_code: self.rebalance_code,
            step_ms: self.step_ms,
            attempt: self.attempt as int,
            member_id: self.member_id@,
            generation_id: self.generation_id,
        }
    }

    /// A member before its first attempt.
    pub fn new(
        group_id: String,
        topic: String,
        session_timeout: i32,
        rebalance_code: i32,
        step_ms: u32,
        member_id: String,
    ) -> (r: Self)
        ensures
            r@ == (JoiningView {
                group_id: group_id@,
                topic: topic@,
                session_timeout,
                rebalance_code,
                step_ms,
                attempt: 0,
                member_id: member_id@,
                generation_id: 0,
            }),
    {
        Joining {
            group_id,
            topic,
            session_timeout,
            rebalance_code,
            step_ms,
            attempt: 0,
            member_id,
            generation_id: 0,
        }
    }

    /// The request to join.
    pub fn join_request(&self) -> (r: JoinGroupRequest)
        ensures
            r.group_id@ == self@.group_id,
            r.session_timeout == self@.session_timeout,
            r.member_id@ == self@.member_id,
            r.protocol_type@ == "consumer"@,
            r.group_protocols@.len() == 1,
            r.group_protocols@[0].protocol_name@ == "range"@,
            r.group_protocols@[0].protocol_metadata@ == encode_utf8(self@.topic),
    {
        let mut group_protocols: Vec<GroupProtocol> = Vec::new();
        let protocol_metadata = vstd::slice::slice_to_vec(self.topic.as_str().as_bytes());
        group_protocols.push(GroupProtocol { protocol_name: "range".to_owned(), protocol_metadata });
        JoinGroupRequest {
            group_id: self.group_id.dup(),
            session_timeout: self.session_timeout,
            member_id: self.member_id.dup(),
            protocol_type: "consumer".to_owned(),
            group_protocols,
        }
    }

    fn retry(&mut self) -> (r: JoiningStep)
        ensures
            is_retry(r, old(self)@),
            final(self)@ == counted(old(self)@),
    {
        proof {
            use_type_invariant(&*self);
        }
        if self.attempt + 1 < MAX_ATTEMPTS {
            let attempt: u32 = self.attempt + 1;
            let step: u64 = self.step_ms as u64;
            let times: u64 = attempt as u64;
            assert(step * times <= 0xffff_ffff * 5) by (nonlinear_arith)
                requires
                    step <= 0xffff_ffff,
                    times <= 5,
            ;
            self.attempt = attempt;
            JoiningStep::Retry { delay_ms: step * times }
        } else {
            JoiningStep::Failed { failure: JoinFailure::Rebalancing }
        }
    }

    /// What follows the answer to a join. The broker may give the member another name.
    pub fn joined(&mut self, response: &JoinGroupResponse) -> (r: JoiningStep)
        ensures
            ({
                let v = old(self)@;
                if response.error_code == v.rebalance_code {
                    is_retry(r, v) && final(self)@ == counted(v)
                } else if response.error_code != 0 {
                    r == (JoiningStep::Failed { failure: JoinFailure::Join { error_code: response.error_code } })
                        && final(self)@ == v
                } else {
                    &&& final(self)@ == (JoiningView {
                        member_id: response.member_id@,
                        generation_id: response.generation_id,
                        ..v
                    })
                    &&& r matches JoiningStep::Sync { request } && is_sync_request(request, final(self)@)
                }
            }),
    {
        proof {
            use_type_invariant(&*self);
        }
        if response.error_code == self.rebalance_code {
            return self.retry();
        }
        if response.error_code != 0 {
            return JoiningStep::Failed { failure: JoinFailure::Join { error_code: response.error_code } };
        }
        self.member_id = response.member_id.dup();
        self.generation_id = response.generation_id;
        JoiningStep::Sync {
            request: SyncGroupRequest {
                group_id: self.group_id.dup(),
                generation_id: self.generation_id,
                member_id: self.member_id.dup(),
                group_assignment: Vec::new(),
            },
        }
    }

    /// What follows the answer with the partitions.
    pub fn synced(&mut self, response: &SyncGroupResponse) -> (r: JoiningStep)
        ensures
            ({
                let v = old(self)@;
                if response.error_code == v.rebalance_code {
                    is_retry(r, v) && final(self)@ == counted(v)
                } else if response.error_code != 0 {
                    r == (JoiningStep::Failed { failure: JoinFailure::Sync { error_code: response.error_code } })
                        && final(self)@ == v
                } else {
                    &&& final(self)@ == v
                    &&& r matches JoiningStep::Joined { partitions, member_id, generation_id } && is_assignment(
                        partitions@,
                        response.member_assignment@,
                    ) && member_id@ == v.member_id && generation_id == v.generation_id
                }
            }),
    {
        proof {
            use_type_invariant(&*self);
        }
        if response.error_code == self.rebalance_code {
            return self.retry();
        }
        if response.error_code != 0 {
            return JoiningStep::Failed { failure: JoinFailure::Sync { error_code: response.error_code } };
        }
        JoiningStep::Joined {
            partitions: read_assignment(&response.member_assignment),
            member_id: self.member_id.dup(),
            generation_id: self.generation_id,
        }
    }
}

/// The state after a number of failed attempts.
pub open spec fn after_failures(v: JoiningView, n: nat) -> JoiningView
    decreases n,
{
    if n == 0 {
        v
    } else {
        counted(after_failures(v, (n - 1) as nat))
    }
}

/// A member waits longer after every failed attempt, and gives up after the last.
pub proof fn attempts_are_bounded(v: JoiningView, n: nat)
    requires
        v.attempt == 0,
        n < MAX_ATTEMPTS,
    ensures
        after_failures(v, n).attempt == n,
        after_failures(v, n).step_ms == v.step_ms,
        pause(after_failures(v, n)) == (if n == MAX_ATTEMPTS - 1 {
            None
        } else {
            Some(v.step_ms * (n + 1))
        }),
    decreases n,
{
    if n > 0 {
        attempts_are_bounded(v, (n - 1) as nat);
    }
}

/// A member that meets a rebalance tries five times in all. After each failed attempt but
/// the last it waits one step longer than before; after the last it gives up.
pub proof fn five_attempts_with_growing_pauses(step: JoiningStep, v: JoiningView)
    requires
        is_retry(step, v),
        0 <= v.attempt < 5,
    ensures
        v.attempt < 4 ==> (step matches JoiningStep::Retry { delay_ms } && delay_ms == v.step_ms * (v.attempt + 1)),
        v.attempt < 4 ==> counted(v).attempt == v.attempt + 1,
        v.attempt == 4 ==> (step matches JoiningStep::Failed { failure } && failure == JoinFailure::Rebalancing),
        v.attempt == 4 ==> counted(v) == v,
        counted(v).group_id == v.group_id,
        counted(v).topic == v.topic,
        counted(v).member_id == v.member_id,
        counted(v).generation_id == v.generation_id,
        counted(v).step_ms == v.step_ms,
        counted(v).rebalance_code == v.rebalance_code,
        counted(v).session_timeout == v.session_timeout,
{
}

/// A member asks for its partitions under the name and in the generation that it was
/// given when it joined, and assigns nothing itself.
pub proof fn member_asks_under_its_name(r: SyncGroupRequest, v: JoiningView)
    requires
        is_sync_request(r, v),
    ensures
        r.group_id@ == v.group_id,
        r.member_id@ == v.member_id,
        r.generation_id == v.generation_id,
        r.group_assignment@.len() == 0,
{
}

/// A member reads exactly the partitions that were assigned to it, whatever follows them.
/// Where no list was sent it has none.
pub proof fn member_reads_what_was_assigned(assigned: Seq<i32>, read: Seq<i32>, rest: Seq<u8>, bytes: Seq<u8>)
    ensures
        is_assignment(read, i32_list(assigned) + rest) && (i32_list(assigned) + rest).len() <= u64::MAX ==> read == assigned,
        bytes.len() < 8 && is_assignment(read, bytes) ==> read.len() == 0,
{
    let whole = i32_list(assigned) + rest;
    assert(whole.take(i32_list(assigned).len() as int) =~= i32_list(assigned));
    assert(i32_list(assigned).is_prefix_of(whole));
    if is_assignment(read, whole) && whole.len() <= u64::MAX {
        assignment_is_unique(assigned, read, whole);
    }
    if bytes.len() < 8 && is_assignment(read, bytes) {
        lemma_list_len(read);
    }
}

} // verus!
