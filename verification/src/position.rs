//! Where a shard starts reading, and how that is kept in a lease checkpoint.

use vstd::prelude::*;

use crate::collections;
use crate::text;

verus! {

/// The checkpoint of a shard that was seeded at the tip. A real sequence
/// number is a decimal string, so it never equals this one.
const SENTINEL_LATEST: &'static str = "LATEST";

/// The text of the sentinel.
pub open spec fn latest_sentinel() -> Seq<char> {
    "LATEST"@
}

/// Where a shard begins when its lease is first seeded.
#[derive(Clone, Copy, Debug, PartialEq, Eq, Structural)]
#[non_exhaustive]
pub enum InitialPosition {
    /// At the oldest record that is still there.
    TrimHorizon,
    /// At the tip: only records that arrive later.
    Latest,
}

impl Default for InitialPosition {
    fn default() -> (p: Self)
        ensures
            p == InitialPosition::TrimHorizon,
    {
        InitialPosition::TrimHorizon
    }
}

/// The position from which a fresh shard iterator is derived.
#[derive(Clone, Debug, PartialEq, Eq)]
#[non_exhaustive]
pub enum StartPosition {
    /// At the oldest record that is still there.
    TrimHorizon,
    /// At the tip.
    Latest,
    /// Strictly after a record that was processed.
    After(String),
}

/// A start position, with the sequence number as text.
pub enum Position {
    TrimHorizon,
    Latest,
    After(Seq<char>),
}

impl View for StartPosition {
    type V = Position;

    open spec fn view(&self) -> Position {
        match self {
            StartPosition::TrimHorizon => Position::TrimHorizon,
            StartPosition::Latest => Position::Latest,
            StartPosition::After(seq) => Position::After(seq@),
        }
    }
}

/// The position that a lease checkpoint stands for: none is the beginning, the
/// sentinel is the tip, anything else is a sequence number.
pub open spec fn decoded(checkpoint: Option<Seq<char>>) -> Position {
    match checkpoint {
        None => Position::TrimHorizon,
        Some(s) => if s == latest_sentinel() {
            Position::Latest
        } else {
            Position::After(s)
        },
    }
}

/// The lease checkpoint that stands for a position.
pub open spec fn encoded(p: Position) -> Option<Seq<char>> {
    match p {
        Position::TrimHorizon => None,
        Position::Latest => Some(latest_sentinel()),
        Position::After(seq) => Some(seq),
    }
}

impl From<InitialPosition> for StartPosition {
    fn from(p: InitialPosition) -> (s: Self) {
        match p {
            InitialPosition::TrimHorizon => StartPosition::TrimHorizon,
            InitialPosition::Latest => StartPosition::Latest,
        }
    }
}

impl vstd::std_specs::convert::FromSpecImpl<InitialPosition> for StartPosition {
    open spec fn obeys_from_spec() -> bool {
        true
    }

    open spec fn from_spec(p: InitialPosition) -> Self {
        match p {
            InitialPosition::TrimHorizon => StartPosition::TrimHorizon,
            InitialPosition::Latest => StartPosition::Latest,
        }
    }
}

/// The name of an initial position, as `parse` takes it: white space around it
/// and the case of its letters do not matter.
pub open spec fn named_position(name: Seq<char>) -> Option<InitialPosition> {
    let word = text::uppercase(text::trimmed(name));
    if word == "TRIM_HORIZON"@ || word == "TRIM-HORIZON"@ || word == "TRIMHORIZON"@ {
        Some(InitialPosition::TrimHorizon)
    } else if word == "LATEST"@ {
        Some(InitialPosition::Latest)
    } else {
        None
    }
}

/// The checkpoint that a shard is seeded with.
pub open spec fn seed(p: InitialPosition) -> Option<Seq<char>> {
    match p {
        InitialPosition::TrimHorizon => None,
        InitialPosition::Latest => Some(latest_sentinel()),
    }
}

impl InitialPosition {
    /// The lease checkpoint of a shard that is first seeded at this position.
    pub fn seed_checkpoint(self) -> (r: Option<String>)
        ensures
            collections::optional_text(r) == seed(self),
    {
        StartPosition::from(self).as_checkpoint()
    }

    /// The position of the given name; `None` for an unknown name.
    pub fn parse(name: &str) -> (r: Option<Self>)
        ensures
            r == named_position(name@),
    {
        proof {
            reveal_strlit("TRIM_HORIZON");
            reveal_strlit("LATEST");
            reveal_strlit("TRIM-HORIZON");
            reveal_strlit("TRIMHORIZON");
        }
        let word = text::trim(name);
        if text::is_uppercased(word, "TRIM_HORIZON") || text::is_uppercased(word, "TRIM-HORIZON")
            || text::is_uppercased(word, "TRIMHORIZON") {
            Some(InitialPosition::TrimHorizon)
        } else if text::is_uppercased(word, "LATEST") {
            Some(InitialPosition::Latest)
        } else {
            None
        }
    }
}

impl StartPosition {
    /// The position that a lease checkpoint stands for.
    pub fn from_checkpoint(checkpoint: Option<&str>) -> (p: Self)
        ensures
            p@ == decoded(
                match checkpoint {
                    Some(s) => Some(s@),
                    None => None,
                },
            ),
    {
        match checkpoint {
            None => StartPosition::TrimHorizon,
            Some(s) => if text::same(s, SENTINEL_LATEST) {
                StartPosition::Latest
            } else {
                StartPosition::After(s.to_owned())
            },
        }
    }

    /// The lease checkpoint that stands for this position.
    pub fn as_checkpoint(&self) -> (r: Option<String>)
        ensures
            collections::optional_text(r) == encoded(self@),
    {
        match self {
            StartPosition::TrimHorizon => None,
            StartPosition::Latest => Some(SENTINEL_LATEST.to_owned()),
            StartPosition::After(seq) => Some(seq.clone()),
        }
    }

    /// Is this a start mode, that is, was no record processed yet?
    pub fn is_start_mode(&self) -> (r: bool)
        ensures
            r == !(self@ is After),
    {
        match self {
            StartPosition::After(_) => false,
            _ => true,
        }
    }
}

/// The texts of optional checkpoints.
pub open spec fn checkpoint_texts(s: Seq<Option<String>>) -> Seq<Option<Seq<char>>> {
    s.map_values(|c: Option<String>| collections::optional_text(c))
}

/// The checkpoint of a newly discovered child, given those of its parents: its
/// own beginning, unless it has parents and every one of them was seeded at the
/// tip and never saw a record.
pub open spec fn child_seed(parents: Seq<Option<Seq<char>>>) -> Option<Seq<char>> {
    if parents.len() > 0 && forall|i: int|
        0 <= i < parents.len() ==> decoded(#[trigger] parents[i]) is Latest {
        Some(latest_sentinel())
    } else {
        None
    }
}

/// The checkpoint that a newly discovered child shard is seeded with, given the
/// current checkpoints of its parents.
///
/// A child normally starts at its own beginning, so that no record is skipped
/// across a reshard. It inherits a start mode only if every parent completed in
/// that mode without a record; otherwise it would replay history that the
/// parents deliberately skipped.
pub fn child_seed_checkpoint(parent_checkpoints: &[Option<String>]) -> (r: Option<String>)
    ensures
        collections::optional_text(r) == child_seed(checkpoint_texts(parent_checkpoints@)),
{
    let ghost t = checkpoint_texts(parent_checkpoints@);
    if parent_checkpoints.len() == 0 {
        return None;
    }
    let mut i: usize = 0;
    while i < parent_checkpoints.len()
        invariant
            i <= parent_checkpoints.len(),
            t == checkpoint_texts(parent_checkpoints@),
            forall|k: int| 0 <= k < i ==> decoded(#[trigger] t[k]) is Latest,
        decreases parent_checkpoints.len() - i,
    {
        let checkpoint: Option<&str> = match &parent_checkpoints[i] {
            Some(s) => Some(s.as_str()),
            None => None,
        };
        assert(t[i as int] == collections::optional_text(parent_checkpoints@[i as int]));
        match StartPosition::from_checkpoint(checkpoint) {
            StartPosition::Latest => {},
            _ => {
                assert(!(decoded(t[i as int]) is Latest));
                return None;
            },
        }
        i = i + 1;
    }
    StartPosition::Latest.as_checkpoint()
}

/// A position survives being kept as a checkpoint, unless it is "after" the
/// very text that stands for the tip.
pub proof fn law_position_survives_checkpoint(p: Position)
    requires
        p != Position::After(latest_sentinel()),
    ensures
        decoded(encoded(p)) == p,
{
}

/// A checkpoint survives being read as a position.
pub proof fn law_checkpoint_survives_position(checkpoint: Option<Seq<char>>)
    ensures
        encoded(decoded(checkpoint)) == checkpoint,
{
}

/// A shard that is seeded at a position is read from that position.
pub proof fn law_seed_decodes_to_the_initial_position(p: InitialPosition)
    ensures
        decoded(seed(p)) == (match p {
            InitialPosition::TrimHorizon => Position::TrimHorizon,
            InitialPosition::Latest => Position::Latest,
        }),
{
}

/// The sentinel of the tip is no sequence number: it is not made of digits.
pub proof fn law_sentinel_is_no_sequence_number()
    ensures
        !text::all_digits(latest_sentinel()),
{
    reveal_strlit("LATEST");
    assert(!text::is_digit(latest_sentinel()[0]));
}

/// A child of a shard that processed a record, or that started at its
/// beginning, starts at its own beginning: nothing is skipped.
pub proof fn law_child_skips_nothing(parents: Seq<Option<Seq<char>>>, i: int)
    requires
        0 <= i < parents.len(),
        decoded(parents[i]) is After || decoded(parents[i]) is TrimHorizon,
    ensures
        child_seed(parents) is None,
{
}

/// What a checkpoint stands for, word for word: none is the beginning of the
/// shard, the word "LATEST" its tip, and any other text the record behind which
/// reading goes on.
pub proof fn law_checkpoints_are_read_word_for_word(text: Seq<char>)
    ensures
        decoded(None) == Position::TrimHorizon,
        decoded(Some("LATEST"@)) == Position::Latest,
        text != "LATEST"@ ==> decoded(Some(text)) == Position::After(text),
        encoded(Position::TrimHorizon) == None::<Seq<char>>,
        encoded(Position::Latest) == Some("LATEST"@),
        encoded(Position::After(text)) == Some(text),
        seed(InitialPosition::TrimHorizon) == None::<Seq<char>>,
        seed(InitialPosition::Latest) == Some("LATEST"@),
{
}

/// A child starts at the tip exactly if it has parents and each of them still
/// has the checkpoint "LATEST"; else it starts at its own beginning.
pub proof fn law_a_child_starts_at_the_tip_only_behind_untouched_parents(parents: Seq<Option<String>>)
    ensures
        child_seed(checkpoint_texts(parents)) == Some("LATEST"@) || child_seed(
            checkpoint_texts(parents),
        ) == None::<Seq<char>>,
        child_seed(checkpoint_texts(parents)) is Some <==> parents.len() > 0 && forall|i: int|
            0 <= i < parents.len() ==> (#[trigger] parents[i]) is Some && parents[i]->0@
                == "LATEST"@,
{
    let t = checkpoint_texts(parents);
    assert forall|i: int| 0 <= i < parents.len() implies (decoded(#[trigger] t[i]) is Latest) == (
    parents[i] is Some && parents[i]->0@ == "LATEST"@) by {}
    if child_seed(t) is Some {
        assert forall|i: int| 0 <= i < parents.len() implies (#[trigger] parents[i]) is Some
            && parents[i]->0@ == "LATEST"@ by {
            assert(decoded(t[i]) is Latest);
        }
    }
}

/// Two texts are the same but for the case of their ASCII letters.
pub open spec fn is_same_word(a: Seq<char>, b: Seq<char>) -> bool {
    a.len() == b.len() && forall|i: int|
        0 <= i < a.len() ==> (#[trigger] a[i]) == b[i] || (a[i] as int == b[i] as int + 32 && 'A' as int
            <= b[i] as int <= 'Z' as int)
}

pub proof fn lemma_same_word(a: Seq<char>, b: Seq<char>)
    requires
        forall|i: int| 0 <= i < b.len() ==> !('a' as int <= (#[trigger] b[i]) as int <= 'z' as int),
    ensures
        text::uppercase(a) == b <==> is_same_word(a, b),
{
    if is_same_word(a, b) {
        assert forall|i: int| 0 <= i < a.len() implies #[trigger] text::uppercase(a)[i] == b[i] by {
            assert(a[i] == b[i] || a[i] as int == b[i] as int + 32);
        }
        assert(text::uppercase(a) =~= b);
    }
    if text::uppercase(a) == b {
        assert forall|i: int| 0 <= i < a.len() implies (#[trigger] a[i]) == b[i] || (a[i] as int
            == b[i] as int + 32 && 'A' as int <= b[i] as int <= 'Z' as int) by {
            assert(text::uppercase(a)[i] == b[i]);
        }
        assert(text::uppercase(a).len() == a.len());
    }
}

/// A position goes by its name in any case and between any white space: the
/// beginning by three spellings, the tip by one. No other name is known.
pub proof fn law_positions_go_by_name(before: Seq<char>, word: Seq<char>, after: Seq<char>)
    requires
        forall|i: int| 0 <= i < before.len() ==> text::is_space(#[trigger] before[i]),
        forall|i: int| 0 <= i < after.len() ==> text::is_space(#[trigger] after[i]),
        word.len() > 0 ==> !text::is_space(word[0]) && !text::is_space(word[word.len() - 1]),
    ensures
        named_position(before + word + after) == Some(InitialPosition::TrimHorizon) <==> is_same_word(
            word,
            "TRIM_HORIZON"@,
        ) || is_same_word(word, "TRIM-HORIZON"@) || is_same_word(word, "TRIMHORIZON"@),
        named_position(before + word + after) == Some(InitialPosition::Latest) <==> is_same_word(
            word,
            "LATEST"@,
        ),
{
    text::law_trimming_takes_the_white_space_at_the_ends(before, word, after);
    reveal_strlit("TRIM_HORIZON");
    reveal_strlit("LATEST");
    reveal_strlit("TRIM-HORIZON");
    reveal_strlit("TRIMHORIZON");
    lemma_same_word(word, "TRIM_HORIZON"@);
    lemma_same_word(word, "TRIM-HORIZON"@);
    lemma_same_word(word, "TRIMHORIZON"@);
    lemma_same_word(word, "LATEST"@);
    assert("LATEST"@.len() == 6);
    assert("TRIM_HORIZON"@.len() == 12);
    assert("TRIM-HORIZON"@.len() == 12);
    assert("TRIMHORIZON"@.len() == 11);
}

/// A start position is what it stands for; that of an initial position has the
/// same name.
pub proof fn law_positions_are_as_they_stand(p: StartPosition)
    ensures
        match p {
            StartPosition::TrimHorizon => p@ is TrimHorizon,
            StartPosition::Latest => p@ is Latest,
            StartPosition::After(s) => p@ == Position::After(s@),
        },
        <StartPosition as vstd::std_specs::convert::FromSpec<InitialPosition>>::from_spec(
            InitialPosition::TrimHorizon,
        ) is TrimHorizon,
        <StartPosition as vstd::std_specs::convert::FromSpec<InitialPosition>>::from_spec(
            InitialPosition::Latest,
        ) is Latest,
{
}

} // verus!
