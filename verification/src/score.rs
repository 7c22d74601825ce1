//! The score board: the current run's score and the persisted high-score
//! table, a list of labelled scores with distinct labels. A new high score
//! is recorded under a timestamp label and the whole table is rendered for
//! the caller to persist.

use vstd::prelude::*;
use crate::codec::{
    entries_view, has_label, json_of, parse_table, plain_label, render_highscores, table_ok,
};

verus! {

/// A timestamp label for a new high-score entry, as the wall clock gives
/// it. Relies on `chrono::Local::now` and `chrono::DateTime::format` with
/// `"%Y-%m-%d %H:%M:%S"`: that format writes only digits, sign characters,
/// `-`, ` ` and `:`, so the label never holds a double quote or a
/// backslash. The clock decides everything else, so nothing more is
/// promised.
#[verifier::external_body]
fn now_label() -> (r: String)
    ensures
        plain_label(r@),
{
    let datetime = chrono::Local::now().format("%Y-%m-%d %H:%M:%S");
    format!("{}", datetime)
}

/// The table `after` records score `v` under `label` in table `before`:
/// an entry with a fresh label is appended, one with a known label is
/// overwritten in place.
pub open spec fn recorded(
    before: Seq<(Seq<char>, u32)>,
    label: Seq<char>,
    v: u32,
    after: Seq<(Seq<char>, u32)>,
) -> bool {
    if !has_label(before, label) {
        after == before.push((label, v))
    } else {
        exists|i: int|
            0 <= i < before.len() && before[i].0 == label && after == before.update(i, (label, v))
    }
}

/// The current run's score and the named high-score table.
pub struct ScoreBoard {
    pub score: u32,
    pub highscores: Vec<(String, u32)>,
}

impl ScoreBoard {
    /// The stored entries, as label-and-score views.
    pub open spec fn table(self) -> Seq<(Seq<char>, u32)> {
        entries_view(self.highscores@)
    }

    /// Labels are plain and distinct.
    pub open spec fn wf(self) -> bool {
        table_ok(self.table())
    }

    /// The current score strictly exceeds every stored score (vacuously
    /// true of an empty table).
    pub open spec fn spec_is_highscore(self) -> bool {
        forall|i: int| 0 <= i < self.table().len() ==> self.score > (#[trigger] self.table()[i]).1
    }

    /// A fresh board: score zero and no stored entries. The caller loads
    /// any persisted table separately and installs it with `with_table`.
    pub fn new() -> (r: ScoreBoard)
        ensures
            r.score == 0,
            r.table() =~= Seq::<(Seq<char>, u32)>::empty(),
            r.wf(),
    {
        ScoreBoard { score: 0, highscores: Vec::new() }
    }

    /// A board that starts a run with a previously stored table.
    pub fn with_table(highscores: Vec<(String, u32)>) -> (r: ScoreBoard)
        ensures
            r.score == 0,
            r.table() == entries_view(highscores@),
            table_ok(entries_view(highscores@)) ==> r.wf(),
    {
        ScoreBoard { score: 0, highscores }
    }

    /// Adds one to the current score.
    pub fn increase(&mut self)
        requires
            old(self).score < u32::MAX,
        ensures
            final(self).score == old(self).score + 1,
            final(self).highscores == old(self).highscores,
    {
        self.score = self.score + 1;
    }

    /// Starts the score of a new run at zero, keeping the stored table.
    pub fn reset_score(&mut self)
        ensures
            final(self).score == 0,
            final(self).highscores == old(self).highscores,
    {
        self.score = 0;
    }

    /// Whether the current score beats every stored one.
    #[verifier::loop_isolation(false)]
    pub fn is_highscore(&self) -> (r: bool)
        ensures
            r == self.spec_is_highscore(),
    {
        let mut i: usize = 0;
        while i < self.highscores.len()
            invariant
                0 <= i <= self.highscores@.len(),
                forall|j: int| 0 <= j < i ==> self.score > (#[trigger] self.table()[j]).1,
            decreases self.highscores@.len() - i,
        {
            if self.score <= self.highscores[i].1 {
                proof {
                    assert(self.table()[i as int].1 == self.highscores@[i as int].1);
                }
                return false;
            }
            i = i + 1;
        }
        true
    }

    /// Stores the current score under the given label: an entry with a
    /// fresh label is appended, one with a known label is overwritten.
    #[verifier::loop_isolation(false)]
    pub fn record_score(&mut self, label: String)
        ensures
            !has_label(old(self).table(), label@) ==> final(self).table() == old(self).table().push(
                (label@, old(self).score),
            ),
            has_label(old(self).table(), label@) ==> exists|i: int|
                0 <= i < old(self).table().len() && old(self).table()[i].0 == label@
                    && final(self).table() == old(self).table().update(
                    i,
                    (label@, old(self).score),
                ),
            final(self).score == old(self).score,
            old(self).wf() && plain_label(label@) ==> final(self).wf(),
    {
        let ghost t0 = self.table();
        let mut i: usize = 0;
        while i < self.highscores.len()
            invariant
                0 <= i <= self.highscores@.len(),
                *self == *old(self),
                t0 == self.table(),
                forall|j: int| 0 <= j < i ==> (#[trigger] t0[j]).0 != label@,
            decreases self.highscores@.len() - i,
        {
            if self.highscores[i].0 == label {
                let ghost w = i as int;
                let score = self.score;
                self.highscores.set(i, (label, score));
                proof {
                    assert(t0[w].0 == label@);
                    assert(self.table() =~= t0.update(w, (label@, self.score)));
                    if table_ok(t0) && plain_label(label@) {
                        assert(table_ok(self.table()));
                    }
                }
                return ;
            }
            i = i + 1;
        }
        let score = self.score;
        self.highscores.push((label, score));
        proof {
            assert(self.table() =~= t0.push((label@, self.score)));
            if table_ok(t0) && plain_label(label@) {
                assert forall|a: int, b: int|
                    0 <= a < b < self.table().len() implies self.table()[a].0 != self.table()[b].0
                by {
                    if b == self.table().len() - 1 {
                        assert(t0[a].0 != label@);
                    }
                };
                assert(table_ok(self.table()));
            }
        }
    }

    /// Records the current score as a new high score under a timestamp
    /// label and renders the whole table in its on-disk form for the
    /// caller to persist. The label comes from the wall clock, so it is
    /// only known to be plain; the entry count grows by one unless the
    /// clock repeats a stored label exactly.
    pub fn insert_highscore(&mut self) -> (json: String)
        ensures
            exists|label: Seq<char>|
                plain_label(label) && #[trigger] recorded(old(self).table(), label, old(self).score, final(self).table()),
            final(self).score == old(self).score,
            old(self).wf() ==> final(self).wf(),
            json@ == json_of(final(self).table()),
    {
        let label = now_label();
        let ghost l = label@;
        self.record_score(label);
        let json = self.save_json();
        proof {
            assert(plain_label(l) && recorded(old(self).table(), l, old(self).score, self.table()));
        }
        json
    }

    /// Renders the stored table in its on-disk JSON form; the caller
    /// writes it to the backing store wholesale.
    pub fn save_json(&self) -> (json: String)
        ensures
            json@ == json_of(self.table()),
    {
        render_highscores(&self.highscores)
    }
}

/// On an empty table every score is a high score, zero included: the
/// comparison against every stored entry holds vacuously.
pub proof fn lemma_empty_table_is_highscore(b: ScoreBoard)
    requires
        b.table().len() == 0,
    ensures
        b.spec_is_highscore(),
{
}

/// Recording a score under a fresh label grows the table by exactly one
/// entry; under a stored label it keeps the entry count.
pub proof fn lemma_recorded_entry_count(
    before: Seq<(Seq<char>, u32)>,
    label: Seq<char>,
    v: u32,
    after: Seq<(Seq<char>, u32)>,
)
    requires
        recorded(before, label, v, after),
    ensures
        !has_label(before, label) ==> after.len() == before.len() + 1,
        has_label(before, label) ==> after.len() == before.len(),
{
}

/// Saving and reloading reproduces the table: parsing the rendered form
/// of a well-formed board's table yields exactly the same entries.
pub proof fn lemma_save_load_round_trip(b: ScoreBoard)
    requires
        b.wf(),
    ensures
        parse_table(json_of(b.table())) == Some(b.table()),
{
    crate::codec::lemma_render_parse_round_trip(b.table());
}

} // verus!
