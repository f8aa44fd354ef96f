//! The Discord ids that are kept from one run to the next.
use vstd::prelude::*;
use vstd::string::*;

verus! {

/// What a `ChannelState` holds.
pub ghost struct StateView {
    pub category_id: Option<u64>,
    pub channels: Map<Seq<char>, u64>,
}

impl StateView {
    /// The id under which a label's channel is known. Zero is no id.
    pub open spec fn channel_id(self, label: Seq<char>) -> Option<u64> {
        if self.channels.contains_key(label) && self.channels[label] != 0 {
            Some(self.channels[label])
        } else {
            None
        }
    }

    /// The state with a label's channel recorded.
    pub open spec fn with_channel(self, label: Seq<char>, id: u64) -> StateView {
        StateView { channels: self.channels.insert(label, id), ..self }
    }

    /// The state with the category recorded.
    pub open spec fn with_category(self, id: u64) -> StateView {
        StateView { category_id: Some(id), ..self }
    }

    /// The state that knows no id.
    pub open spec fn nothing() -> StateView {
        StateView { category_id: None, channels: Map::empty() }
    }
}

/// The map that a list of entries stands for, a later entry replacing an earlier one
/// of the same label.
pub open spec fn entries_map(entries: Seq<(String, u64)>) -> Map<Seq<char>, u64>
    decreases entries.len(),
{
    if entries.len() == 0 {
        Map::empty()
    } else {
        entries_map(entries.drop_last()).insert(entries.last().0@, entries.last().1)
    }
}

/// No label occurs twice.
pub open spec fn labels_distinct(entries: Seq<(String, u64)>) -> bool {
    forall|i: int, j: int|
        0 <= i < j < entries.len() ==> #[trigger] entries[i].0@ != #[trigger] entries[j].0@
}

/// What the map of a list without repeated labels holds.
pub proof fn lemma_entries_map(entries: Seq<(String, u64)>)
    requires
        labels_distinct(entries),
    ensures
        forall|i: int|
            0 <= i < entries.len() ==> entries_map(entries).contains_key(
                #[trigger] entries[i].0@,
            ) && entries_map(entries)[entries[i].0@] == entries[i].1,
        forall|label: Seq<char>| #[trigger]
            entries_map(entries).contains_key(label) ==> exists|i: int|
                0 <= i < entries.len() && #[trigger] entries[i].0@ == label,
    decreases entries.len(),
{
    if entries.len() > 0 {
        let front = entries.drop_last();
        assert forall|i: int, j: int| 0 <= i < j < front.len() implies #[trigger] front[i].0@
            != #[trigger] front[j].0@ by {
            assert(entries[i].0@ != entries[j].0@);
        }
        lemma_entries_map(front);
        assert forall|i: int| 0 <= i < entries.len() implies entries_map(entries).contains_key(
            #[trigger] entries[i].0@,
        ) && entries_map(entries)[entries[i].0@] == entries[i].1 by {
            if i < front.len() {
                assert(front[i].0@ == entries[i].0@);
                assert(entries[i].0@ != entries[entries.len() - 1].0@);
            }
        }
        assert forall|label: Seq<char>| #[trigger]
            entries_map(entries).contains_key(label) implies exists|i: int|
            0 <= i < entries.len() && #[trigger] entries[i].0@ == label by {
            if label == entries.last().0@ {
                assert(entries[entries.len() - 1].0@ == label);
            } else {
                assert(entries_map(front).contains_key(label));
                let i = choose|i: int| 0 <= i < front.len() && #[trigger] front[i].0@ == label;
                assert(entries[i].0@ == label);
            }
        }
    }
}

/// The ids of the stats category and of the channel of each label.
#[derive(Debug)]
pub struct ChannelState {
    category_id: Option<u64>,
    channels: Vec<(String, u64)>,
}

impl View for ChannelState {
    type V = StateView;

    closed spec fn view(&self) -> StateView {
        StateView { category_id: self.category_id, channels: entries_map(self.channels@) }
    }
}

impl Default for ChannelState {
    fn default() -> (state: Self)
        ensures
            state.wf(),
            state@ == StateView::nothing(),
    {
        ChannelState { category_id: None, channels: Vec::new() }
    }
}

impl Clone for ChannelState {
    fn clone(&self) -> (copy: Self)
        ensures
            copy.wf(),
            copy@ == self@,
    {
        ChannelState::from_entries(self.category_id, &self.channels)
    }
}

impl ChannelState {
    /// Each label is kept once.
    pub closed spec fn wf(self) -> bool {
        labels_distinct(self.channels@)
    }

    /// The state with the given category and entries, a later entry replacing an
    /// earlier one of the same label.
    pub fn from_entries(category_id: Option<u64>, entries: &Vec<(String, u64)>) -> (state: Self)
        ensures
            state.wf(),
            state@.category_id == category_id,
            state@.channels == entries_map(entries@),
    {
        let mut state = ChannelState { category_id, channels: Vec::new() };
        let mut i: usize = 0;
        assert(entries@.take(0) == Seq::<(String, u64)>::empty());
        while i < entries.len()
            invariant
                i <= entries.len(),
                state.wf(),
                state@.category_id == category_id,
                state@.channels == entries_map(entries@.take(i as int)),
            decreases entries.len() - i,
        {
            state.set_channel_id(entries[i].0.as_str(), entries[i].1);
            i = i + 1;
            assert(entries@.take(i as int).drop_last() == entries@.take(i - 1));
        }
        assert(entries@.take(i as int) == entries@);
        state
    }

    /// Every label with its id, each label once.
    pub fn entries(&self) -> (entries: &Vec<(String, u64)>)
        requires
            self.wf(),
        ensures
            labels_distinct(entries@),
            entries_map(entries@) == self@.channels,
    {
        &self.channels
    }

    /// The recorded category.
    pub fn category_id(&self) -> (id: Option<u64>)
        ensures
            id == self@.category_id,
    {
        self.category_id
    }

    /// Records the category.
    pub fn set_category_id(&mut self, id: u64)
        ensures
            final(self)@ == old(self)@.with_category(id),
            old(self).wf() ==> final(self).wf(),
    {
        self.category_id = Some(id);
    }

    /// The position of a label, or the number of entries where it has none.
    fn position(&self, label: &str) -> (at: usize)
        ensures
            at <= self.channels.len(),
            at < self.channels.len() ==> self.channels@[at as int].0@ == label@,
            forall|i: int| 0 <= i < at ==> #[trigger] self.channels@[i].0@ != label@,
    {
        let wanted = label.to_owned();
        let mut i: usize = 0;
        while i < self.channels.len()
            invariant
                i <= self.channels.len(),
                wanted@ == label@,
                forall|j: int| 0 <= j < i ==> #[trigger] self.channels@[j].0@ != label@,
            decreases self.channels.len() - i,
        {
            if self.channels[i].0.eq(&wanted) {
                return i;
            }
            i = i + 1;
        }
        i
    }

    /// The id of a label's channel. Zero is no id.
    pub fn channel_id(&self, label: &str) -> (id: Option<u64>)
        requires
            self.wf(),
        ensures
            id == self@.channel_id(label@),
    {
        let at: usize = self.position(label);
        proof {
            lemma_entries_map(self.channels@);
        }
        if at < self.channels.len() && self.channels[at].1 != 0 {
            Some(self.channels[at].1)
        } else {
            None
        }
    }

    /// Records the id of a label's channel.
    pub fn set_channel_id(&mut self, label: &str, channel_id: u64)
        requires
            old(self).wf(),
        ensures
            final(self).wf(),
            final(self)@ == old(self)@.with_channel(label@, channel_id),
    {
        let at: usize = self.position(label);
        let ghost before = self.channels@;
        let entry = (label.to_owned(), channel_id);
        if at < self.channels.len() {
            self.channels.set(at, entry);
        } else {
            self.channels.push(entry);
        }
        proof {
            let after = self.channels@;
            assert(labels_distinct(after)) by {
                assert forall|i: int, j: int| 0 <= i < j < after.len() implies #[trigger]
                after[i].0@ != #[trigger] after[j].0@ by {
                    if j < before.len() {
                        assert(before[i].0@ != before[j].0@);
                    }
                }
            }
            lemma_entries_map(before);
            lemma_entries_map(after);
            let wanted = entries_map(before).insert(label@, channel_id);
            assert forall|k: Seq<char>| #[trigger]
                entries_map(after).contains_key(k) == wanted.contains_key(k) by {
                if entries_map(after).contains_key(k) && k != label@ {
                    let i = choose|i: int| 0 <= i < after.len() && #[trigger] after[i].0@ == k;
                    assert(before[i].0@ == k);
                }
                if entries_map(before).contains_key(k) {
                    let i = choose|i: int| 0 <= i < before.len() && #[trigger] before[i].0@ == k;
                    assert(after[i].0@ == k);
                }
                assert(after[at as int].0@ == label@);
            }
            assert forall|k: Seq<char>| #[trigger]
                entries_map(after).contains_key(k) implies entries_map(after)[k] == wanted[k] by {
                let i = choose|i: int| 0 <= i < after.len() && #[trigger] after[i].0@ == k;
                if k != label@ {
                    assert(before[i].0@ == k);
                } else {
                    assert(after[at as int].0@ == label@);
                }
            }
            assert(entries_map(after) =~= wanted);
        }
    }
}

} // verus!
