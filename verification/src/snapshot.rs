//! One immutable capture of a scope's key/value fields at a single
//! recording moment, and its rendering as one human-readable line.

use vstd::prelude::*;

verus! {

/// A snapshot viewed mathematically: the field names and values, in
/// insertion order, as character sequences.
pub type FieldsView = Seq<(Seq<char>, Seq<char>)>;

/// No two entries share a field name.
pub open spec fn unique_keys(s: FieldsView) -> bool {
    forall|i: int, j: int| 0 <= i < j < s.len() ==> s[i].0 != s[j].0
}

/// Some entry carries the given field name.
pub open spec fn has_key(s: FieldsView, name: Seq<char>) -> bool {
    exists|i: int| 0 <= i < s.len() && s[i].0 == name
}

/// One entry rendered as `name=value`.
pub open spec fn entry_chars(e: (Seq<char>, Seq<char>)) -> Seq<char> {
    e.0 + seq!['='] + e.1
}

/// All entries rendered in order, separated by `", "`.
pub open spec fn entries_chars(es: FieldsView) -> Seq<char>
    decreases es.len(),
{
    if es.len() == 0 {
        Seq::<char>::empty()
    } else if es.len() == 1 {
        entry_chars(es[0])
    } else {
        entries_chars(es.drop_last()) + seq![',', ' '] + entry_chars(es.last())
    }
}

/// A whole snapshot rendered as one line: the entries between braces.
pub open spec fn snapshot_line(es: FieldsView) -> Seq<char> {
    seq!['{'] + entries_chars(es) + seq!['}']
}

/// Relies on `chrono::Utc::now`, rendered through its `Display` impl: the
/// current wall-clock time as text. Nothing is promised of the clock's
/// value.
#[verifier::external_body]
fn now_string() -> String {
    chrono::Utc::now().to_string()
}

/// An ordered mapping from field name to recorded value, built once per
/// recording event. Field names are unique; inserting an existing name
/// overwrites its value in place.
pub struct FieldSnapshot {
    entries: Vec<(String, String)>,
}

impl View for FieldSnapshot {
    type V = FieldsView;

    closed spec fn view(&self) -> FieldsView {
        Seq::new(self.entries@.len(), |i: int| (self.entries@[i].0@, self.entries@[i].1@))
    }
}

impl FieldSnapshot {
    /// Well-formedness: field names are unique.
    pub open spec fn wf(&self) -> bool {
        unique_keys(self@)
    }

    /// An empty snapshot.
    pub fn new() -> (r: Self)
        ensures
            r.wf(),
            r@ == FieldsView::empty(),
    {
        let r = FieldSnapshot { entries: Vec::new() };
        proof {
            assert(r@ =~= FieldsView::empty());
        }
        r
    }

    /// Record `value` under `name`: a fresh name is appended, an existing
    /// one has its value overwritten in place.
    pub fn insert(&mut self, name: String, value: String)
        requires
            old(self).wf(),
        ensures
            final(self).wf(),
            !has_key(old(self)@, name@) ==> final(self)@ == old(self)@.push((name@, value@)),
            has_key(old(self)@, name@) ==> exists|i: int|
                0 <= i < old(self)@.len() && old(self)@[i].0 == name@ && final(self)@ == old(
                    self,
                )@.update(i, (name@, value@)),
    {
        let n = self.entries.len();
        let mut i: usize = 0;
        while i < n
            invariant
                n == self.entries.len(),
                i <= n,
                self@ == old(self)@,
                unique_keys(self@),
                forall|k: int| 0 <= k < i ==> self@[k].0 != name@,
            decreases n - i,
        {
            if self.entries[i].0 == name {
                let slot = &mut self.entries[i];
                *slot = (name, value);
                proof {
                    assert(old(self)@[i as int].0 == name@);
                    assert(has_key(old(self)@, name@));
                    assert(self@ =~= old(self)@.update(i as int, (name@, value@)));
                    assert(unique_keys(self@)) by {
                        assert forall|p: int, q: int|
                            0 <= p < q < self@.len() implies self@[p].0 != self@[q].0 by {
                            assert(old(self)@[p].0 != old(self)@[q].0);
                            assert(self@[p].0 == old(self)@[p].0);
                            assert(self@[q].0 == old(self)@[q].0);
                        }
                    }
                }
                return ;
            }
            i = i + 1;
        }
        self.entries.push((name, value));
        proof {
            assert(self@ =~= old(self)@.push((name@, value@)));
        }
    }

    /// A snapshot holding one field, `time`, set to the current wall-clock
    /// time.
    pub fn new_timestamped() -> (r: Self)
        ensures
            r.wf(),
            r@.len() == 1,
            r@[0].0 == "time"@,
    {
        let mut r = FieldSnapshot::new();
        r.insert(String::from_str("time"), now_string());
        r
    }

    /// The four metadata fields every recorded event starts with: severity
    /// level, source line, source file, and the capture time, in that order.
    pub fn event_base(level: String, line: String, file: String) -> (r: Self)
        ensures
            r.wf(),
            r@.len() == 4,
            r@[0] == ("level"@, level@),
            r@[1] == ("line"@, line@),
            r@[2] == ("file"@, file@),
            r@[3].0 == "time"@,
    {
        proof {
            reveal_strlit("level");
            reveal_strlit("line");
            reveal_strlit("file");
            reveal_strlit("time");
            assert("line"@ != "level"@) by {
                assert("line"@.len() == 4);
                assert("level"@.len() == 5);
            }
            assert("file"@ != "level"@) by {
                assert("file"@.len() == 4);
                assert("level"@.len() == 5);
            }
            assert("time"@ != "level"@) by {
                assert("time"@.len() == 4);
                assert("level"@.len() == 5);
            }
            assert("file"@ != "line"@) by {
                assert("file"@[0] == 'f');
                assert("line"@[0] == 'l');
            }
            assert("time"@ != "line"@) by {
                assert("time"@[0] == 't');
                assert("line"@[0] == 'l');
            }
            assert("time"@ != "file"@) by {
                assert("time"@[0] == 't');
                assert("file"@[0] == 'f');
            }
        }
        let mut r = FieldSnapshot::new();
        r.insert(String::from_str("level"), level);
        proof {
            assert(r@ =~= seq![("level"@, level@)]);
        }
        r.insert(String::from_str("line"), line);
        proof {
            assert(r@ =~= seq![("level"@, level@), ("line"@, line@)]);
        }
        r.insert(String::from_str("file"), file);
        proof {
            assert(r@ =~= seq![("level"@, level@), ("line"@, line@), ("file"@, file@)]);
        }
        r.insert(String::from_str("time"), now_string());
        r
    }

    /// Render the snapshot as one human-readable line: the entries in
    /// insertion order, `name=value` separated by commas, between braces.
    pub fn format_line(&self) -> (r: String)
        ensures
            r@ == snapshot_line(self@),
    {
        let mut out = String::from_str("{");
        proof {
            reveal_strlit("{");
            reveal_strlit(", ");
            reveal_strlit("=");
            reveal_strlit("}");
            assert(out@ =~= seq!['{'] + entries_chars(self@.take(0)));
        }
        let n = self.entries.len();
        let mut i: usize = 0;
        while i < n
            invariant
                n == self.entries.len(),
                i <= n,
                out@ == seq!['{'] + entries_chars(self@.take(i as int)),
            decreases n - i,
        {
            proof {
                reveal_strlit(", ");
                reveal_strlit("=");
            }
            if i > 0 {
                out.append(", ");
            }
            out.append(self.entries[i].0.as_str());
            out.append("=");
            out.append(self.entries[i].1.as_str());
            proof {
                let prev = self@.take(i as int);
                let next = self@.take(i + 1 as int);
                assert(next.drop_last() =~= prev);
                assert(next.last() == self@[i as int]);
                assert(out@ =~= seq!['{'] + entries_chars(next));
            }
            i = i + 1;
        }
        out.append("}");
        proof {
            reveal_strlit("}");
            assert(self@.take(n as int) =~= self@);
            assert(out@ =~= snapshot_line(self@));
        }
        out
    }
}

} // verus!
