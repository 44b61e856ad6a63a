//! The aggregation layer: per-scope snapshot histories, and the drain that
//! renders a closed scope's history into the shared bounded log stream.
//!
//! Each active scope owns a `ScopeHistory`: the ordered sequence of field
//! snapshots recorded during its lifetime. The `Collector` keys the live
//! histories by scope identifier; when a scope closes, its history is
//! removed, each snapshot is rendered as one line, and the lines are
//! appended in order to the `LogStream` sink.

use vstd::prelude::*;
use vstd::utf8::*;

use crate::logs::{
    append_chars, byte_len, concat_lines, lemma_concat_lines_append, lemma_total_byte_len_first,
    spec_append, total_byte_len, LogModel, LogStream,
};
use crate::snapshot::{FieldSnapshot, FieldsView, snapshot_line, unique_keys};

verus! {

/// The ordered snapshots collected for one active scope, append-only while
/// the scope lives.
pub struct ScopeHistory {
    snapshots: Vec<FieldSnapshot>,
}

impl View for ScopeHistory {
    type V = Seq<FieldsView>;

    closed spec fn view(&self) -> Seq<FieldsView> {
        Seq::new(self.snapshots@.len(), |i: int| self.snapshots@[i]@)
    }
}

impl ScopeHistory {
    /// Well-formedness: every snapshot has unique field names.
    pub open spec fn wf(&self) -> bool {
        forall|i: int| 0 <= i < self@.len() ==> unique_keys(#[trigger] self@[i])
    }

    /// A history whose sole element is the snapshot of the fields supplied
    /// at scope creation.
    pub fn new(first: FieldSnapshot) -> (r: Self)
        requires
            first.wf(),
        ensures
            r.wf(),
            r@ == seq![first@],
    {
        let mut snapshots = Vec::new();
        snapshots.push(first);
        let r = ScopeHistory { snapshots };
        proof {
            assert(r@ =~= seq![first@]);
        }
        r
    }

    /// Append one more snapshot; earlier snapshots are never merged into it.
    pub fn push_snapshot(&mut self, s: FieldSnapshot)
        requires
            old(self).wf(),
            s.wf(),
        ensures
            final(self).wf(),
            final(self)@ == old(self)@.push(s@),
    {
        self.snapshots.push(s);
        proof {
            assert(self@ =~= old(self)@.push(s@));
        }
    }
}

/// Each snapshot of a history rendered as its one-line text.
pub open spec fn history_lines(h: Seq<FieldsView>) -> Seq<Seq<char>> {
    h.map_values(|f: FieldsView| snapshot_line(f))
}

/// The stream model after appending each line's UTF-8 bytes in order, each
/// through the `append` contract.
pub open spec fn spec_drain(m: LogModel, lines: Seq<Seq<char>>) -> LogModel
    decreases lines.len(),
{
    if lines.len() == 0 {
        m
    } else {
        spec_drain(spec_append(m, encode_utf8(lines[0])).0, lines.drop_first())
    }
}

/// Draining lines that together fit the stream's remaining byte budget
/// stores every line exactly and in order: the stored sequence grows by
/// exactly those lines, the byte counter by their total byte length, and
/// the displayed contents by their concatenation.
pub proof fn lemma_drain_within_budget(m: LogModel, lines: Seq<Seq<char>>)
    requires
        m.current + total_byte_len(lines) <= m.capacity,
        forall|i: int| 0 <= i < lines.len() ==> 0 < (#[trigger] lines[i]).len(),
    ensures
        spec_drain(m, lines).lines == m.lines + lines,
        spec_drain(m, lines).capacity == m.capacity,
        spec_drain(m, lines).current == m.current + total_byte_len(lines),
        concat_lines(spec_drain(m, lines).lines) == concat_lines(m.lines) + concat_lines(lines),
    decreases lines.len(),
{
    lemma_concat_lines_append(m.lines, lines);
    if lines.len() == 0 {
        assert(m.lines + lines =~= m.lines);
    } else {
        let line = lines[0];
        let rest = lines.drop_first();
        lemma_total_byte_len_first(lines);
        encode_utf8_valid_utf8(line);
        encode_utf8_decode_utf8(line);
        let input = encode_utf8(line);
        assert(input.len() > 0);
        assert(append_chars(input) == line);
        let step = spec_append(m, input);
        assert(step.0.lines == m.lines.push(line));
        assert(step.0.current == m.current + byte_len(line));
        assert forall|i: int| 0 <= i < rest.len() implies 0 < (#[trigger] rest[i]).len() by {
            assert(rest[i] == lines[i + 1]);
        }
        lemma_drain_within_budget(step.0, rest);
        assert(m.lines.push(line) + rest =~= m.lines + lines);
    }
}

/// Some scope in the collector carries the given identifier.
pub open spec fn contains_scope(s: Seq<(u64, Seq<FieldsView>)>, id: u64) -> bool {
    exists|i: int| 0 <= i < s.len() && s[i].0 == id
}

/// The observer of scope-lifecycle callbacks: it owns one `ScopeHistory`
/// per active scope, keyed by the scope's identifier.
pub struct Collector {
    scopes: Vec<(u64, ScopeHistory)>,
}

impl View for Collector {
    type V = Seq<(u64, Seq<FieldsView>)>;

    closed spec fn view(&self) -> Seq<(u64, Seq<FieldsView>)> {
        Seq::new(self.scopes@.len(), |i: int| (self.scopes@[i].0, self.scopes@[i].1@))
    }
}

impl Collector {
    /// Well-formedness: scope identifiers are unique and every stored
    /// snapshot has unique field names.
    pub open spec fn wf(&self) -> bool {
        &&& forall|i: int, j: int|
            0 <= i < j < self@.len() ==> (#[trigger] self@[i]).0 != (#[trigger] self@[j]).0
        &&& forall|i: int, k: int|
            0 <= i < self@.len() && 0 <= k < self@[i].1.len() ==> unique_keys(
                #[trigger] self@[i].1[k],
            )
    }

    /// A collector with no active scope.
    pub fn new() -> (r: Self)
        ensures
            r.wf(),
            r@ == Seq::<(u64, Seq<FieldsView>)>::empty(),
    {
        let r = Collector { scopes: Vec::new() };
        proof {
            assert(r@ =~= Seq::<(u64, Seq<FieldsView>)>::empty());
        }
        r
    }

    /// Whether a scope with this identifier is currently active.
    pub fn has_scope(&self, id: u64) -> (r: bool)
        ensures
            r == contains_scope(self@, id),
    {
        let n = self.scopes.len();
        let mut i: usize = 0;
        while i < n
            invariant
                n == self.scopes.len(),
                i <= n,
                forall|k: int| 0 <= k < i ==> (#[trigger] self@[k]).0 != id,
            decreases n - i,
        {
            if self.scopes[i].0 == id {
                proof {
                    assert(self@[i as int].0 == id);
                }
                return true;
            }
            i = i + 1;
        }
        false
    }

    /// The position of the scope with this identifier, if one is active.
    fn find_scope(&self, id: u64) -> (r: Option<usize>)
        ensures
            r matches Some(i) ==> i < self@.len() && self@[i as int].0 == id,
            r is None ==> !contains_scope(self@, id),
    {
        let n = self.scopes.len();
        let mut i: usize = 0;
        while i < n
            invariant
                n == self.scopes.len(),
                i <= n,
                forall|k: int| 0 <= k < i ==> (#[trigger] self@[k]).0 != id,
            decreases n - i,
        {
            if self.scopes[i].0 == id {
                return Some(i);
            }
            i = i + 1;
        }
        None
    }

    /// Open a new scope: attach a history holding only the snapshot of its
    /// initial fields. Each identifier is created exactly once; creating it
    /// again is an invariant violation of the host pipeline, which callers
    /// rule out up front.
    pub fn on_scope_created(&mut self, id: u64, first: FieldSnapshot)
        requires
            old(self).wf(),
            !contains_scope(old(self)@, id),
            first.wf(),
        ensures
            final(self).wf(),
            final(self)@ == old(self)@.push((id, seq![first@])),
    {
        let h = ScopeHistory::new(first);
        self.scopes.push((id, h));
        proof {
            assert(self@ =~= old(self)@.push((id, seq![first@])));
        }
    }

    /// Record a field update on an active scope: a snapshot holding only
    /// the updated fields is appended to its history, never merged with
    /// earlier snapshots. Updating an absent scope is an invariant
    /// violation of the host pipeline, which callers rule out up front.
    pub fn on_fields_updated(&mut self, id: u64, fields: FieldSnapshot)
        requires
            old(self).wf(),
            contains_scope(old(self)@, id),
            fields.wf(),
        ensures
            final(self).wf(),
            exists|i: int|
                0 <= i < old(self)@.len() && (#[trigger] old(self)@[i]).0 == id && final(self)@
                    == old(self)@.update(i, (id, old(self)@[i].1.push(fields@))),
    {
        let i = self.find_scope(id).unwrap();
        let mut entry = self.scopes.remove(i);
        entry.1.push_snapshot(fields);
        self.scopes.insert(i, entry);
        proof {
            assert(self@ =~= old(self)@.update(i as int, (id, old(self)@[i as int].1.push(
                fields@,
            ))));
        }
    }

    /// Record an event: when a scope is active, a snapshot of the event's
    /// fields is appended to that scope's history; with no active scope the
    /// event is dropped and the collector is left unchanged, so it can
    /// never produce a stored line.
    pub fn on_event_recorded(&mut self, active: Option<u64>, fields: FieldSnapshot)
        requires
            old(self).wf(),
            (active matches Some(id) ==> contains_scope(old(self)@, id)),
            fields.wf(),
        ensures
            final(self).wf(),
            active is None ==> final(self)@ == old(self)@,
            (active matches Some(id) ==> exists|i: int|
                0 <= i < old(self)@.len() && (#[trigger] old(self)@[i]).0 == id && final(self)@
                    == old(self)@.update(i, (id, old(self)@[i].1.push(fields@)))),
    {
        match active {
            None => {},
            Some(id) => {
                self.on_fields_updated(id, fields);
            },
        }
    }

    /// Close a scope: remove its history and render each snapshot, in
    /// recording order, as one line appended to the sink through the
    /// sink's `append` contract. Closing an absent scope is an invariant
    /// violation of the host pipeline, which callers rule out up front.
    pub fn on_scope_closed(&mut self, id: u64, sink: &mut LogStream)
        requires
            old(self).wf(),
            contains_scope(old(self)@, id),
            old(sink).wf(),
        ensures
            final(self).wf(),
            final(sink).wf(),
            exists|i: int|
                0 <= i < old(self)@.len() && (#[trigger] old(self)@[i]).0 == id && final(self)@
                    == old(self)@.remove(i) && final(sink)@ == spec_drain(
                    old(sink)@,
                    history_lines(old(self)@[i].1),
                ),
    {
        let i = self.find_scope(id).unwrap();
        let entry = self.scopes.remove(i);
        proof {
            assert(self@ =~= old(self)@.remove(i as int));
        }
        let hist = entry.1;
        let ghost lines = history_lines(hist@);
        proof {
            assert(hist@ == old(self)@[i as int].1);
            assert forall|k: int| 0 <= k < hist@.len() implies unique_keys(
                #[trigger] hist@[k],
            ) by {
                assert(unique_keys(old(self)@[i as int].1[k]));
            }
            assert(lines.skip(0) =~= lines);
        }
        let n = hist.snapshots.len();
        let mut k: usize = 0;
        while k < n
            invariant
                n == hist.snapshots.len(),
                k <= n,
                hist.wf(),
                lines == history_lines(hist@),
                sink.wf(),
                spec_drain(old(sink)@, lines) == spec_drain(sink@, lines.skip(k as int)),
            decreases n - k,
        {
            let line = hist.snapshots[k].format_line();
            let ghost before = sink@;
            let _ = sink.append(line.as_str().as_bytes());
            proof {
                assert(lines.skip(k as int)[0] == lines[k as int]);
                assert(lines.skip(k as int).drop_first() =~= lines.skip(k + 1 as int));
                assert(line@ == lines[k as int]);
                assert(sink@ == spec_append(before, encode_utf8(lines[k as int])).0);
            }
            k = k + 1;
        }
        proof {
            assert(lines.skip(n as int) =~= Seq::<Seq<char>>::empty());
        }
    }
}

} // verus!
