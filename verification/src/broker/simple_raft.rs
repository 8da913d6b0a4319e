//! The smallest replicated broker: messages and committed offsets.
use vstd::prelude::*;

use crate::maps::{Dup, VecMap};

verus! {

/// A stored message.
#[derive(Debug)]
pub struct BrokerStoredMessage {
    pub offset: i64,
    pub key: Option<Vec<u8>>,
    pub value: Vec<u8>,
}

/// What a stored message holds.
#[verifier::ext_equal]
pub struct SimpleMessageView {
    pub offset: i64,
    pub key: Option<Seq<u8>>,
    pub value: Seq<u8>,
}

impl DeepView for BrokerStoredMessage {
    type V = SimpleMessageView;

    open spec fn deep_view(&self) -> SimpleMessageView {
        SimpleMessageView { offset: self.offset, key: self.key.deep_view(), value: self.value.deep_view() }
    }
}

impl Dup for BrokerStoredMessage {
    fn dup(&self) -> (r: Self) {
        BrokerStoredMessage { offset: self.offset, key: self.key.dup(), value: self.value.dup() }
    }
}

/// The replicated state.
pub struct BrokerData {
    /// The messages of every partition; the place of a message is its offset.
    pub messages: VecMap<(String, i32), Vec<BrokerStoredMessage>>,
    /// The offset that a group has committed for a partition of a topic.
    pub offsets: VecMap<(String, String, i32), i64>,
}

/// What the state holds.
#[verifier::ext_equal]
pub struct SimpleView {
    pub messages: Map<(Seq<char>, i32), Seq<SimpleMessageView>>,
    pub offsets: Map<(Seq<char>, Seq<char>, i32), i64>,
}

impl BrokerData {
    pub open spec fn view(&self) -> SimpleView {
        SimpleView { messages: self.messages@, offsets: self.offsets@ }
    }
}

impl Default for BrokerData {
    fn default() -> (r: Self)
        ensures
            r@ == (SimpleView { messages: Map::empty(), offsets: Map::empty() }),
    {
        BrokerData { messages: VecMap::new(), offsets: VecMap::new() }
    }
}

/// A command of the log.
#[derive(Debug)]
pub enum BrokerCommand {
    Produce { topic: String, partition: i32, key: Option<Vec<u8>>, value: Vec<u8> },
    CommitOffset { group_id: String, topic: String, partition: i32, offset: i64 },
}

/// The messages of a partition; an unknown one has none.
pub open spec fn simple_log(d: SimpleView, topic: Seq<char>, partition: i32) -> Seq<SimpleMessageView> {
    if d.messages.dom().contains((topic, partition)) { d.messages[(topic, partition)] } else { Seq::empty() }
}

/// The state after a command.
pub open spec fn simply_applied(d: SimpleView, cmd: BrokerCommand) -> SimpleView {
    match cmd {
        BrokerCommand::Produce { topic, partition, key, value } => {
            let log = simple_log(d, topic@, partition);
            SimpleView {
                messages: d.messages.insert(
                    (topic@, partition),
                    log.push(
                        SimpleMessageView {
                            offset: log.len() as i64,
                            key: key.deep_view(),
                            value: value.deep_view(),
                        },
                    ),
                ),
                ..d
            }
        },
        BrokerCommand::CommitOffset { group_id, topic, partition, offset } => SimpleView {
            offsets: d.offsets.insert((group_id@, topic@, partition), offset),
            ..d
        },
    }
}

/// What a command is answered: the offset of the message, or the one committed.
pub open spec fn simple_answer(d: SimpleView, cmd: BrokerCommand) -> i64 {
    match cmd {
        BrokerCommand::Produce { topic, partition, .. } => simple_log(d, topic@, partition).len() as i64,
        BrokerCommand::CommitOffset { offset, .. } => offset,
    }
}

/// Applies a command.
pub fn apply_command(data: &mut BrokerData, cmd: BrokerCommand) -> (r: i64)
    ensures
        final(data)@ == simply_applied(old(data)@, cmd),
        r == simple_answer(old(data)@, cmd),
{
    match cmd {
        BrokerCommand::Produce { topic, partition, key, value } => {
            let k = (topic, partition);
            let mut log = match data.messages.remove(&k) {
                Some(l) => l,
                None => Vec::new(),
            };
            let ghost before = log.deep_view();
            assert(before =~= simple_log(old(data)@, topic@, partition));
            let offset = #[verifier::truncate] (log.len() as i64);
            let m = BrokerStoredMessage { offset, key, value };
            let ghost shown = m.deep_view();
            log.push(m);
            assert(log.deep_view() =~= before.push(shown));
            data.messages.insert(k, log);
            assert(data@.messages =~= old(data)@.messages.insert((topic@, partition), before.push(shown)));
            offset
        },
        BrokerCommand::CommitOffset { group_id, topic, partition, offset } => {
            data.offsets.insert((group_id, topic, partition), offset);
            offset
        },
    }
}

/// The state after entries of the log; one that holds no command changes nothing.
pub open spec fn all_applied(d: SimpleView, entries: Seq<Option<BrokerCommand>>) -> SimpleView
    decreases entries.len(),
{
    if entries.len() == 0 {
        d
    } else {
        let before = all_applied(d, entries.drop_last());
        match entries.last() {
            Some(cmd) => simply_applied(before, cmd),
            None => before,
        }
    }
}

/// Applies the entries that were committed, in their order.
pub fn apply_committed(data: &mut BrokerData, entries: Vec<Option<BrokerCommand>>)
    ensures
        final(data)@ == all_applied(old(data)@, entries@),
{
    let ghost start = data@;
    assert(entries@.take(0) =~= Seq::empty());
    for entry in it: entries
        invariant
            it.seq() == entries@,
            data@ == all_applied(start, entries@.take(it.index() as int)),
    {
        proof {
            assert(entries@.take(it.index() + 1).drop_last() =~= entries@.take(it.index() as int));
            assert(entries@.take(it.index() + 1).last() == entry);
        }
        if let Some(cmd) = entry {
            apply_command(data, cmd);
        }
    }
    assert(entries@.take(entries@.len() as int) =~= entries@);
}

/// The place of every message is its offset.
pub open spec fn offsets_are_places(d: SimpleView) -> bool {
    forall|k: (Seq<char>, i32), i: int|
        #![trigger d.messages[k][i]]
        d.messages.dom().contains(k) && 0 <= i < d.messages[k].len() ==> d.messages[k][i].offset == i as i64
}

/// Commands keep the place of every message its offset.
pub proof fn commands_keep_places(d: SimpleView, cmd: BrokerCommand)
    requires
        offsets_are_places(d),
    ensures
        offsets_are_places(simply_applied(d, cmd)),
{
    let after = simply_applied(d, cmd);
    assert forall|k: (Seq<char>, i32), i: int|
        #![trigger after.messages[k][i]]
        after.messages.dom().contains(k) && 0 <= i < after.messages[k].len() implies after.messages[k][i].offset
        == i as i64 by {
        if let BrokerCommand::Produce { topic, partition, .. } = cmd {
            if k == (topic@, partition) {
                let log = simple_log(d, topic@, partition);
                if i < log.len() {
                    assert(after.messages[k][i] == log[i]);
                    assert(d.messages[k][i] == log[i]);
                }
            } else {
                assert(after.messages[k][i] == d.messages[k][i]);
            }
        } else {
            assert(after.messages[k][i] == d.messages[k][i]);
        }
    }
}

/// The place of every message stays its offset, whatever is committed.
pub proof fn committed_entries_keep_places(d: SimpleView, entries: Seq<Option<BrokerCommand>>)
    requires
        offsets_are_places(d),
    ensures
        offsets_are_places(all_applied(d, entries)),
    decreases entries.len(),
{
    if entries.len() > 0 {
        committed_entries_keep_places(d, entries.drop_last());
        if let Some(cmd) = entries.last() {
            commands_keep_places(all_applied(d, entries.drop_last()), cmd);
        }
    }
}

/// Whether a proposal is taken: only the leader takes any.
pub fn check_leader(is_leader: bool) -> (r: Result<(), String>)
    ensures
        match r {
            Ok(()) => is_leader,
            Err(e) => !is_leader && e@ == "not leader for partition"@,
        },
{
    if is_leader {
        Ok(())
    } else {
        Err("not leader for partition".to_owned())
    }
}

/// A message that is stored stands behind the others of its partition, with its key and
/// value, and the answer is its place. A commit records the offset of the group. Nothing
/// else is touched.
pub proof fn commands_touch_one_thing(
    d: SimpleView,
    cmd: BrokerCommand,
    k: (Seq<char>, i32),
    g: (Seq<char>, Seq<char>, i32),
)
    ensures
        ({
            let e = simply_applied(d, cmd);
            match cmd {
                BrokerCommand::Produce { topic, partition, key, value } => {
                    let at = (topic@, partition);
                    let log = if d.messages.dom().contains(at) { d.messages[at] } else { Seq::empty() };
                    &&& e.messages.dom().contains(at)
                    &&& e.messages[at].len() == log.len() + 1
                    &&& e.messages[at].drop_last() == log
                    &&& e.messages[at].last().key == key.deep_view()
                    &&& e.messages[at].last().value == value.deep_view()
                    &&& e.messages[at].last().offset == log.len() as i64
                    &&& simple_answer(d, cmd) == log.len() as i64
                    &&& k != at ==> (e.messages.dom().contains(k) <==> d.messages.dom().contains(k))
                    &&& k != at && d.messages.dom().contains(k) ==> e.messages[k] == d.messages[k]
                    &&& e.offsets == d.offsets
                },
                BrokerCommand::CommitOffset { group_id, topic, partition, offset } => {
                    let at = (group_id@, topic@, partition);
                    &&& e.offsets.dom().contains(at)
                    &&& e.offsets[at] == offset
                    &&& simple_answer(d, cmd) == offset
                    &&& g != at ==> (e.offsets.dom().contains(g) <==> d.offsets.dom().contains(g))
                    &&& g != at && d.offsets.dom().contains(g) ==> e.offsets[g] == d.offsets[g]
                    &&& e.messages == d.messages
                },
            }
        }),
{
    if let BrokerCommand::Produce { topic, partition, .. } = cmd {
        let log = simple_log(d, topic@, partition);
        assert(simply_applied(d, cmd).messages[(topic@, partition)].drop_last() =~= log);
    }
}

/// Entries are applied one after the other; one without a command changes nothing.
pub proof fn entries_apply_one_by_one(d: SimpleView, a: Seq<Option<BrokerCommand>>, b: Seq<Option<BrokerCommand>>, cmd: BrokerCommand)
    ensures
        all_applied(d, a + b) == all_applied(all_applied(d, a), b),
        all_applied(d, seq![None]) == d,
        all_applied(d, seq![Some(cmd)]) == simply_applied(d, cmd),
    decreases b.len(),
{
    reveal_with_fuel(all_applied, 2);
    assert(seq![None::<BrokerCommand>].drop_last() =~= Seq::empty());
    assert(seq![Some(cmd)].drop_last() =~= Seq::empty());
    if b.len() == 0 {
        assert(a + b =~= a);
    } else {
        assert((a + b).drop_last() =~= a + b.drop_last());
        assert((a + b).last() == b.last());
        entries_apply_one_by_one(d, a, b.drop_last(), cmd);
    }
}

} // verus!
