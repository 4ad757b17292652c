//! Checkpoints: their names, their manifests, and starting again from one.

use vstd::prelude::*;

use crate::dp_map::{no_paths, DpMap};
use crate::record::{
    law_log_is_whole, lemma_sound_records_bound, load, load_start, validate_and_load_db, DbError,
    LoadState, RECORD_SIZE,
};
use crate::text::{
    decimal_text, ends_with_text, is_digit, lemma_decimal_roundtrip, parse_unsigned, push_decimal,
    same_text, starts_with_text, text_at, text_ends_with, unsigned_digits, unsigned_value,
};

verus! {

/// How many generations of checkpoints are kept.
pub const GENERATIONS_KEPT: u64 = 3;

/// The generation that a directory's name stands for, if it is that of a finished checkpoint.
pub open spec fn generation_of(name: Seq<char>) -> Option<u64> {
    if starts_with_text(name, "checkpoint_"@) && !ends_with_text(name, "_tmp"@) {
        unsigned_value(name.skip("checkpoint_"@.len() as int))
    } else {
        None
    }
}

/// The generation that a directory's name stands for, if it is that of a finished checkpoint.
pub fn checkpoint_generation(name: &str) -> (r: Option<u64>)
    ensures
        r == generation_of(name@),
{
    let prefix = "checkpoint_";
    if text_at(name, prefix, 0) && !text_ends_with(name, "_tmp") {
        let len: usize = name.unicode_len();
        let from: usize = prefix.unicode_len();
        assert(name@.subrange(from as int, len as int) =~= name@.skip(from as int));
        parse_unsigned(name.substring_char(from, len))
    } else {
        None
    }
}

/// The generations that names stand for, in the order of the names.
pub open spec fn generations_of(names: Seq<String>) -> Seq<u64>
    decreases names.len(),
{
    if names.len() == 0 {
        Seq::empty()
    } else {
        let before = generations_of(names.drop_last());
        match generation_of(names.last()@) {
            Some(gen) => before.push(gen),
            None => before,
        }
    }
}

/// In ascending order.
pub open spec fn ascending(s: Seq<u64>) -> bool {
    forall|i: int, j: int| 0 <= i <= j < s.len() ==> s[i] <= s[j]
}

/// Puts a number in its place in an ascending list.
fn insert_sorted(v: &mut Vec<u64>, x: u64)
    requires
        ascending(old(v)@),
    ensures
        ascending(final(v)@),
        final(v)@.to_multiset() == old(v)@.to_multiset().insert(x),
{
    let n: usize = v.len();
    let mut at: usize = 0;
    while at < n && v[at] <= x
        invariant
            at <= n,
            n == v@.len(),
            ascending(v@),
            forall|k: int| 0 <= k < at ==> v@[k] <= x,
        decreases n - at,
    {
        at = at + 1;
    }
    let ghost before = v@;
    v.insert(at, x);
    proof {
        let after = v@;
        assert(after.remove(at as int) =~= before);
        assert(after[at as int] == x);
        after.to_multiset_ensures();
        assert(after.contains(x));
        assert(after.to_multiset() =~= before.to_multiset().insert(x));
    }
}

/// The generations of the finished checkpoints among the names of a directory's entries, oldest
/// first.
pub fn get_all_checkpoints(names: &Vec<String>) -> (gens: Vec<u64>)
    ensures
        ascending(gens@),
        gens@.to_multiset() == generations_of(names@).to_multiset(),
{
    let mut gens: Vec<u64> = Vec::new();
    let mut i: usize = 0;
    assert(names@.take(0) =~= Seq::<String>::empty());
    while i < names.len()
        invariant
            i <= names@.len(),
            ascending(gens@),
            gens@.to_multiset() == generations_of(names@.take(i as int)).to_multiset(),
        decreases names@.len() - i,
    {
        proof {
            assert(names@.take(i + 1).drop_last() =~= names@.take(i as int));
            assert(names@.take(i + 1).last() == names@[i as int]);
        }
        let ghost before = generations_of(names@.take(i as int));
        match checkpoint_generation(names[i].as_str()) {
            Some(gen) => {
                insert_sorted(&mut gens, gen);
                proof {
                    before.to_multiset_ensures();
                }
            },
            None => {},
        }
        i = i + 1;
    }
    assert(names@.take(i as int) =~= names@);
    gens
}

/// The order in which checkpoints are tried when a run is taken up: the newest first.
pub fn newest_first(gens: &Vec<u64>) -> (r: Vec<u64>)
    ensures
        r@ == gens@.reverse(),
{
    let mut out: Vec<u64> = Vec::with_capacity(gens.len());
    let mut i: usize = gens.len();
    while i > 0
        invariant
            i <= gens@.len(),
            out@.len() == gens@.len() - i,
            forall|k: int| 0 <= k < out@.len() ==> out@[k] == gens@.reverse()[k],
        decreases i,
    {
        i = i - 1;
        out.push(gens[i]);
    }
    assert(out@ =~= gens@.reverse());
    out
}

/// The name of the directory of a generation's checkpoint.
pub fn checkpoint_name(gen: u64) -> (r: String)
    ensures
        r@ == "checkpoint_"@ + decimal_text(gen as nat),
{
    let mut name = String::from_str("checkpoint_");
    push_decimal(&mut name, gen as u128);
    name
}

/// A checkpoint's name stands for its generation.
pub proof fn law_checkpoint_name_found(gen: u64)
    ensures
        generation_of("checkpoint_"@ + decimal_text(gen as nat)) == Some(gen),
{
    reveal_strlit("checkpoint_");
    reveal_strlit("_tmp");
    let prefix = "checkpoint_"@;
    let digits = decimal_text(gen as nat);
    let name = prefix + digits;
    lemma_decimal_roundtrip(gen as nat);
    assert(name.subrange(0, prefix.len() as int) =~= prefix);
    assert(name.skip(prefix.len() as int) =~= digits);
    assert(is_digit(digits[0]));
    assert(!ends_with_text(name, "_tmp"@)) by {
        let last = digits.len() - 1;
        assert(is_digit(digits[last]));
        assert(name[name.len() - 1] == digits[last]);
        if ends_with_text(name, "_tmp"@) {
            let at = name.len() - 4;
            assert(name.subrange(at, at + 4)[3] == "_tmp"@[3]);
        }
    }
}

/// What a checkpoint says of itself.
pub struct Manifest {
    pub version: u32,
    pub checkpoint_gen: u64,
    pub records_total: u64,
    pub last_seq: u64,
    pub size: u64,
    pub status: String,
}

/// A manifest is that of a checkpoint of generation `gen`, of a log of `size` bytes in which `seq`
/// is due next.
pub open spec fn is_manifest_of(m: Manifest, gen: u64, seq: u64, size: u64) -> bool {
    &&& m.version == 1
    &&& m.checkpoint_gen == gen
    &&& m.records_total == size / 77
    &&& m.last_seq == if seq == 0 {
        0
    } else {
        seq - 1
    }
    &&& m.size == size
    &&& m.status@ == "committed"@
}

/// The manifest of a checkpoint of generation `gen`, of a log of `size` bytes in which `seq` is
/// due next.
pub fn checkpoint_manifest(gen: u64, seq: u64, size: u64) -> (m: Manifest)
    ensures
        is_manifest_of(m, gen, seq, size),
{
    Manifest {
        version: 1,
        checkpoint_gen: gen,
        records_total: size / (RECORD_SIZE as u64),
        last_seq: seq.saturating_sub(1),
        size,
        status: String::from_str("committed"),
    }
}

/// A manifest speaks of a committed checkpoint of this generation, with a log of this size.
pub open spec fn manifest_fits(m: Manifest, gen: u64, db_size: nat) -> bool {
    m.version == 1 && m.status@ == "committed"@ && m.checkpoint_gen == gen && m.size == db_size
}

/// Whether a manifest speaks of a committed checkpoint of this generation.
pub fn manifest_is_committed(m: &Manifest, gen: u64) -> (r: bool)
    ensures
        r == manifest_fits(*m, gen, m.size as nat),
{
    m.version == 1 && same_text(m.status.as_str(), "committed") && m.checkpoint_gen == gen
}

/// Where a run takes up: the generation of its next checkpoint, the sequence number that is due
/// next, and how many records are on disk already.
#[derive(Clone, Copy, Debug, PartialEq, Eq, Structural)]
pub struct Resume {
    pub active_gen: u64,
    pub global_seq: u64,
    pub durable_records: u64,
}

/// Why a checkpoint cannot be taken up.
#[derive(Clone, Copy, Debug, PartialEq, Eq, Structural)]
pub enum Rejection {
    /// The manifest speaks of another checkpoint, or of a log of another size.
    Manifest,
    /// The log is damaged.
    Damaged(DbError),
    /// The log is sound, but is not the one that the manifest speaks of.
    Mismatch,
    /// The checkpoint is sound, but there is no generation after it.
    LastGeneration,
}

/// A run that starts with nothing.
pub fn fresh_start() -> (r: Resume)
    ensures
        r.active_gen == 1,
        r.global_seq == 0,
        r.durable_records == 0,
{
    Resume { active_gen: 1, global_seq: 0, durable_records: 0 }
}

/// What comes next when a run is taken up.
#[derive(Clone, Copy, Debug, PartialEq, Eq, Structural)]
pub enum RestartStep {
    /// Try the checkpoint of this generation.
    Try(u64),
    /// Go on from here.
    Resume(Resume),
    /// Start with nothing.
    Fresh,
}

/// Taking up a run: checkpoints are tried one after the other.
pub struct Restart {
    /// The generations in the order in which they are tried.
    pub order: Vec<u64>,
    /// How many have been tried.
    pub tried: usize,
}

/// What comes next, after `tried` checkpoints of which the last came to `outcome`.
pub open spec fn restart_step(order: Seq<u64>, tried: nat, outcome: Option<Resume>) -> RestartStep {
    match outcome {
        Some(resume) => RestartStep::Resume(resume),
        None => if tried < order.len() {
            RestartStep::Try(order[tried as int])
        } else {
            RestartStep::Fresh
        },
    }
}

impl Restart {
    /// No more were tried than there are.
    pub open spec fn wf(&self) -> bool {
        self.tried <= self.order@.len()
    }

    /// Nothing is tried yet; the newest checkpoint comes first.
    pub fn new(gens: &Vec<u64>) -> (r: Restart)
        ensures
            r.wf(),
            r.order@ == gens@.reverse(),
            r.tried == 0,
    {
        Restart { order: newest_first(gens), tried: 0 }
    }

    /// What comes next, given what the last try came to; none at first.
    pub fn step(&mut self, outcome: Option<Resume>) -> (r: RestartStep)
        requires
            old(self).wf(),
        ensures
            r == restart_step(old(self).order@, old(self).tried as nat, outcome),
            final(self).wf(),
            final(self).order@ == old(self).order@,
            final(self).tried == old(self).tried + (if r is Try {
                1int
            } else {
                0int
            }),
    {
        match outcome {
            Some(resume) => RestartStep::Resume(resume),
            None => {
                if self.tried < self.order.len() {
                    let gen = self.order[self.tried];
                    self.tried = self.tried + 1;
                    RestartStep::Try(gen)
                } else {
                    RestartStep::Fresh
                }
            },
        }
    }
}

/// Where a restart ends, from a number of tries on, given what each checkpoint comes to.
pub open spec fn restart_end(
    order: Seq<u64>,
    tried: nat,
    outcome: Option<Resume>,
    comes_to: spec_fn(u64) -> Option<Resume>,
) -> RestartStep
    decreases order.len() - tried,
{
    match restart_step(order, tried, outcome) {
        RestartStep::Try(gen) => if tried < order.len() {
            restart_end(order, tried + 1, comes_to(gen), comes_to)
        } else {
            RestartStep::Fresh
        },
        done => done,
    }
}

/// A run goes on from the first checkpoint in the order of tries that can be taken up, and starts
/// with nothing exactly if none can.
pub proof fn law_restart_takes_the_first(order: Seq<u64>, comes_to: spec_fn(u64) -> Option<Resume>)
    ensures
        match restart_end(order, 0, None, comes_to) {
            RestartStep::Resume(resume) => exists|i: int|
                0 <= i < order.len() && comes_to(#[trigger] order[i]) == Some(resume) && forall|j: int|
                    0 <= j < i ==> comes_to(#[trigger] order[j]) is None,
            RestartStep::Fresh => forall|i: int|
                0 <= i < order.len() ==> comes_to(#[trigger] order[i]) is None,
            RestartStep::Try(_) => false,
        },
{
    lemma_restart_from(order, 0, comes_to);
}

proof fn lemma_restart_from(order: Seq<u64>, tried: nat, comes_to: spec_fn(u64) -> Option<Resume>)
    requires
        tried <= order.len(),
    ensures
        match restart_end(order, tried, None, comes_to) {
            RestartStep::Resume(resume) => exists|i: int|
                tried <= i < order.len() && comes_to(#[trigger] order[i]) == Some(resume)
                    && forall|j: int| tried <= j < i ==> comes_to(#[trigger] order[j]) is None,
            RestartStep::Fresh => forall|i: int|
                tried <= i < order.len() ==> comes_to(#[trigger] order[i]) is None,
            RestartStep::Try(_) => false,
        },
    decreases order.len() - tried,
{
    if tried < order.len() {
        let gen = order[tried as int];
        match comes_to(gen) {
            Some(resume) => {
                assert(restart_end(order, tried + 1, Some(resume), comes_to)
                    == RestartStep::Resume(resume));
            },
            None => {
                lemma_restart_from(order, tried + 1, comes_to);
                if let RestartStep::Resume(resume) = restart_end(
                    order,
                    tried + 1,
                    None,
                    comes_to,
                ) {
                    let i = choose|i: int|
                        tried + 1 <= i < order.len() && comes_to(#[trigger] order[i]) == Some(
                            resume,
                        ) && forall|j: int|
                            tried + 1 <= j < i ==> comes_to(#[trigger] order[j]) is None;
                    assert(comes_to(order[i]) == Some(resume));
                    assert forall|j: int| tried <= j < i implies comes_to(
                        #[trigger] order[j],
                    ) is None by {
                        if j > tried {
                            assert(comes_to(order[j]) is None);
                        }
                    }
                }
            },
        }
    }
}

/// The log was read as the manifest announces it.
pub open spec fn load_matches(m: Manifest, st: LoadState) -> bool {
    st.count == m.records_total && (st.count == 0 || st.last == m.last_seq)
}

/// What taking up a checkpoint comes to.
pub open spec fn restored(gen: u64, m: Manifest, log: Seq<u8>) -> Result<Resume, Rejection> {
    let end = load(log, load_start(no_paths(), 0));
    if !manifest_fits(m, gen, log.len()) {
        Err(Rejection::Manifest)
    } else {
        match end.1 {
            Some(e) => Err(Rejection::Damaged(e)),
            None => if !load_matches(m, end.0) {
                Err(Rejection::Mismatch)
            } else if gen == u64::MAX {
                Err(Rejection::LastGeneration)
            } else {
                Ok(
                    Resume {
                        active_gen: (gen + 1) as u64,
                        global_seq: end.0.expected as u64,
                        durable_records: end.0.count as u64,
                    },
                )
            },
        }
    }
}

/// Takes up a checkpoint: checks its manifest and its log, and fills the table from the log.
///
/// The table is emptied first, unless the manifest is refused; of a damaged log it then holds the
/// records before the damage.
pub fn restore_checkpoint(
    gen: u64,
    manifest: &Manifest,
    log: &[u8],
    map: &mut DpMap,
) -> (r: Result<Resume, Rejection>)
    ensures
        r == restored(gen, *manifest, log@),
        final(map)@ == if manifest_fits(*manifest, gen, log@.len()) {
            load(log@, load_start(no_paths(), 0)).0.map
        } else {
            old(map)@
        },
{
    if !manifest_is_committed(manifest, gen) || manifest.size != log.len() as u64 {
        return Err(Rejection::Manifest);
    }
    proof {
        lemma_sound_records_bound(log@, 0);
    }
    map.clear();
    let mut db_seq: u64 = 0;
    match validate_and_load_db(log, map, &mut db_seq) {
        Ok((cnt, last)) => {
            if cnt != manifest.records_total || (cnt != 0 && last != manifest.last_seq) {
                Err(Rejection::Mismatch)
            } else if gen == u64::MAX {
                Err(Rejection::LastGeneration)
            } else {
                Ok(Resume { active_gen: gen + 1, global_seq: db_seq, durable_records: cnt })
            }
        },
        Err(e) => Err(Rejection::Damaged(e)),
    }
}

/// A checkpoint can be taken up again: with the manifest made for it, a sound log restores, and
/// the run goes on with the sequence number that is due and the number of records in the log.
pub proof fn law_checkpoint_restores(gen: u64, log: Seq<u8>, seq: u64, m: Manifest)
    requires
        load(log, load_start(no_paths(), 0)).1 is None,
        load(log, load_start(no_paths(), 0)).0.expected == seq,
        log.len() <= u64::MAX,
        gen < u64::MAX,
        is_manifest_of(m, gen, seq, log.len() as u64),
    ensures
        restored(gen, m, log) == Ok::<Resume, Rejection>(
            Resume {
                active_gen: (gen + 1) as u64,
                global_seq: seq,
                durable_records: (log.len() / 77) as u64,
            },
        ),
{
    law_log_is_whole(log, load_start(no_paths(), 0));
}

/// The generation whose checkpoint is given up once this one is committed.
pub open spec fn retired(gen: u64) -> Option<u64> {
    if gen > GENERATIONS_KEPT {
        Some((gen - GENERATIONS_KEPT) as u64)
    } else {
        None
    }
}

/// The generation whose checkpoint is given up once this one is committed.
pub fn retired_generation(gen: u64) -> (r: Option<u64>)
    ensures
        r == retired(gen),
{
    if gen > GENERATIONS_KEPT {
        Some(gen - GENERATIONS_KEPT)
    } else {
        None
    }
}

/// The name of a finished checkpoint is the prefix and the digits of its generation; a name that
/// goes on in another way, or does not begin so, stands for none.
pub proof fn law_names_of_checkpoints(name: Seq<char>, rest: Seq<char>)
    ensures
        generation_of("checkpoint_"@ + rest) == unsigned_value(rest),
        generation_of(name) is Some ==> name == "checkpoint_"@ + name.skip(11),
{
    reveal_strlit("checkpoint_");
    reveal_strlit("_tmp");
    let prefix = "checkpoint_"@;
    let whole = prefix + rest;
    assert(whole.subrange(0, 11) =~= prefix);
    assert(whole.skip(11) =~= rest);
    if ends_with_text(whole, "_tmp"@) {
        let at = whole.len() - 4;
        assert(whole.subrange(at, at + 4)[3] == 'p');
        assert(whole[whole.len() - 1] == 'p');
        if unsigned_value(rest) is Some {
            assert(rest[rest.len() - 1] == whole[whole.len() - 1]);
            let digits = unsigned_digits(rest);
            assert(digits[digits.len() - 1] == 'p');
            assert(is_digit(digits[digits.len() - 1]));
        }
    }
    if generation_of(name) is Some {
        assert(name =~= name.subrange(0, 11) + name.skip(11));
    }
}

/// The generations that are found are those of all names that stand for one.
pub proof fn law_all_checkpoints_are_found(names: Seq<String>)
    ensures
        generations_of(names) == names.filter(|n: String| generation_of(n@) is Some).map_values(
            |n: String| generation_of(n@)->0,
        ),
    decreases names.len(),
{
    reveal(Seq::filter);
    let named = |n: String| generation_of(n@) is Some;
    let told = |n: String| generation_of(n@)->0;
    if names.len() > 0 {
        law_all_checkpoints_are_found(names.drop_last());
        let before = names.drop_last().filter(named);
        if named(names.last()) {
            assert(before.push(names.last()).map_values(told) =~= before.map_values(told).push(
                told(names.last()),
            ));
        }
    }
    assert(generations_of(names) =~= names.filter(named).map_values(told));
}

/// In a list in ascending order none is above one that follows it, and a list of which this holds
/// is in that order.
pub proof fn law_ascending(s: Seq<u64>, i: int, j: int)
    ensures
        ascending(s) && 0 <= i < j < s.len() ==> s[i] <= s[j],
        (forall|k: int| 0 < k < s.len() ==> s[k - 1] <= #[trigger] s[k]) ==> ascending(s),
{
    if forall|k: int| 0 < k < s.len() ==> s[k - 1] <= #[trigger] s[k] {
        assert forall|a: int, b: int| 0 <= a <= b < s.len() implies s[a] <= s[b] by {
            lemma_ascending(s, a, b);
        }
    }
}

proof fn lemma_ascending(s: Seq<u64>, a: int, b: int)
    requires
        forall|k: int| 0 < k < s.len() ==> s[k - 1] <= #[trigger] s[k],
        0 <= a <= b < s.len(),
    ensures
        s[a] <= s[b],
    decreases b - a,
{
    if a < b {
        lemma_ascending(s, a, b - 1);
        assert(s[b - 1] <= s[b]);
    }
}

/// What a manifest says: the first version, the generation, how many whole records of 77 bytes the
/// log has, the number before the one that is due, the size of the log, and that it is committed.
pub proof fn law_manifest_tells(m: Manifest, gen: u64, seq: u64, size: u64)
    ensures
        is_manifest_of(m, gen, seq, size) <==> {
            &&& m.version == 1
            &&& m.checkpoint_gen == gen
            &&& 77 * m.records_total <= size < 77 * m.records_total + 77
            &&& m.last_seq + 1 == seq || (m.last_seq == 0 && seq == 0)
            &&& m.size == size
            &&& m.status@ == "committed"@
        },
{
}

/// A checkpoint is taken up exactly if its manifest is committed, in the first version, and speaks
/// of this generation and of the log as it is: its size, its number of records and the last of
/// their numbers. The run then goes on with the next generation, after the records of the log.
pub proof fn law_what_is_taken_up(gen: u64, m: Manifest, log: Seq<u8>)
    requires
        log.len() <= u64::MAX,
    ensures
        ({
            let speaks = m.version == 1 && m.status@ == "committed"@ && m.checkpoint_gen == gen
                && m.size == log.len();
            let damage = load(log, load_start(no_paths(), 0)).1;
            let fits = 77 * m.records_total == log.len() && (log.len() == 0 || m.last_seq + 1
                == m.records_total);
            let r = restored(gen, m, log);
            &&& r == Err::<Resume, Rejection>(Rejection::Manifest) <==> !speaks
            &&& speaks && damage is Some ==> r == Err::<Resume, Rejection>(
                Rejection::Damaged(damage->0),
            )
            &&& speaks && damage is None && !fits ==> r == Err::<Resume, Rejection>(
                Rejection::Mismatch,
            )
            &&& speaks && damage is None && fits && gen == u64::MAX ==> r == Err::<
                Resume,
                Rejection,
            >(Rejection::LastGeneration)
            &&& speaks && damage is None && fits && gen < u64::MAX ==> {
                &&& r is Ok
                &&& r->Ok_0.active_gen == gen + 1
                &&& 77 * r->Ok_0.global_seq == log.len()
                &&& 77 * r->Ok_0.durable_records == log.len()
            }
        }),
{
    let damage = load(log, load_start(no_paths(), 0)).1;
    if damage is None {
        law_log_is_whole(log, load_start(no_paths(), 0));
    }
}

/// Three generations are kept: the one that goes is three before the one that was made.
pub proof fn law_three_are_kept(gen: u64, old_gen: u64)
    ensures
        retired(gen) == Some(old_gen) <==> old_gen >= 1 && old_gen + 3 == gen,
        retired(gen) is None <==> gen <= 3,
{
}

/// What comes next: where the last try led, else the next that was not tried, else nothing.
pub proof fn law_restart_goes_on(order: Seq<u64>, tried: nat, resume: Resume)
    ensures
        restart_step(order, tried, Some(resume)) == RestartStep::Resume(resume),
        tried < order.len() ==> restart_step(order, tried, None) == RestartStep::Try(
            order[tried as int],
        ),
        tried >= order.len() ==> restart_step(order, tried, None) == RestartStep::Fresh,
{
}

} // verus!
