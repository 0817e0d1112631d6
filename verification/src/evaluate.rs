//! The evaluation pipeline: dataset lines back in, per-user scores out.
//! Each line is split positionally into a train prefix (80%, rounded
//! down) and a held-out test suffix; the recommender's answer for the
//! train part is scored by how many distinct recommended items occur in
//! the test part. The HTTP exchange itself happens outside the library;
//! this module states what must hold of every answer handed back.

use vstd::prelude::*;
use crate::errors::{ErrorKind, ParseError};
use crate::num::{parse_i64, parse_i64_spec};
use crate::text::{
    chars_of, count_char, lemma_split_char_len, split_char, split_on, string_of, trim_blanks,
    trim_spec,
};

verus! {

/// One parsed dataset line: a user and the items of their history.
#[derive(Debug)]
pub struct EvaluationRecord {
    pub user_id: i64,
    pub items: Vec<i64>,
}

/// A dataset line must have exactly one `:` separator.
pub open spec fn line_parts_ok(s: Seq<char>) -> bool {
    count_char(s, ':') == 1
}

pub open spec fn line_user_text(s: Seq<char>) -> Seq<char> {
    trim_spec(split_char(s, ':')[0])
}

pub open spec fn line_items_text(s: Seq<char>) -> Seq<char> {
    trim_spec(split_char(s, ':')[1])
}

pub open spec fn line_item_fields(s: Seq<char>) -> Seq<Seq<char>> {
    split_char(line_items_text(s), ',')
}

/// Whether a dataset line is well formed: one separator, an integer
/// user id, and every comma-separated item an integer.
pub open spec fn dataset_line_ok(s: Seq<char>) -> bool {
    &&& line_parts_ok(s)
    &&& parse_i64_spec(line_user_text(s)) is Some
    &&& forall|i: int|
        0 <= i < line_item_fields(s).len() ==> parse_i64_spec(#[trigger] line_item_fields(s)[i])
            is Some
}

pub open spec fn dataset_line_user(s: Seq<char>) -> i64 {
    parse_i64_spec(line_user_text(s))->0
}

pub open spec fn dataset_line_items(s: Seq<char>) -> Seq<i64> {
    line_item_fields(s).map_values(|f: Seq<char>| parse_i64_spec(f)->0)
}

/// Which complaint a bad dataset line earns.
pub open spec fn line_error_kind(s: Seq<char>) -> ErrorKind {
    if !line_parts_ok(s) {
        ErrorKind::InvalidSeparator
    } else if parse_i64_spec(line_user_text(s)) is None {
        ErrorKind::InvalidUserId
    } else {
        ErrorKind::InvalidItem
    }
}

/// The position of the first item field that fails to parse.
pub open spec fn first_bad_field(fs: Seq<Seq<char>>, i: int) -> int
    decreases fs.len() - i,
{
    if i < 0 || i >= fs.len() {
        fs.len() as int
    } else if parse_i64_spec(fs[i]) is None {
        i
    } else {
        first_bad_field(fs, i + 1)
    }
}

proof fn lemma_first_bad_field_at(fs: Seq<Seq<char>>, j: int)
    requires
        0 <= j < fs.len(),
        forall|t: int| 0 <= t < j ==> parse_i64_spec(#[trigger] fs[t]) is Some,
        parse_i64_spec(fs[j]) is None,
    ensures
        first_bad_field(fs, 0) == j,
{
    lemma_first_bad_field_from(fs, 0, j);
}

proof fn lemma_first_bad_field_from(fs: Seq<Seq<char>>, i: int, j: int)
    requires
        0 <= i <= j < fs.len(),
        forall|t: int| i <= t < j ==> parse_i64_spec(#[trigger] fs[t]) is Some,
        parse_i64_spec(fs[j]) is None,
    ensures
        first_bad_field(fs, i) == j,
    decreases j - i,
{
    if i < j {
        lemma_first_bad_field_from(fs, i + 1, j);
    }
}

/// The raw text a bad dataset line is reported with.
pub open spec fn line_error_value(s: Seq<char>) -> Seq<char> {
    if !line_parts_ok(s) {
        s
    } else if parse_i64_spec(line_user_text(s)) is None {
        line_user_text(s)
    } else {
        line_item_fields(s)[first_bad_field(line_item_fields(s), 0)]
    }
}

/// Reads one dataset line back, or reports the fatal mistake, exactly
/// as the `dataset_line` functions state.
pub fn parse_dataset_line(line: &str, line_no: u64) -> (r: Result<EvaluationRecord, ParseError>)
    ensures
        match r {
            Ok(rec) => {
                &&& dataset_line_ok(line@)
                &&& rec.user_id == dataset_line_user(line@)
                &&& rec.items@ == dataset_line_items(line@)
            },
            Err(e) => {
                &&& !dataset_line_ok(line@)
                &&& e.line_no == line_no
                &&& e.kind == line_error_kind(line@)
                &&& e.value@ == line_error_value(line@)
            },
        },
{
    let chars = chars_of(line);
    let parts = split_on(&chars, ':');
    proof {
        lemma_split_char_len(line@, ':');
        assert(parts@.map_values(|p: Vec<char>| p@)[0] == parts@[0]@);
        if parts@.len() >= 2 {
            assert(parts@.map_values(|p: Vec<char>| p@)[1] == parts@[1]@);
        }
    }
    if parts.len() != 2 {
        return Err(
            ParseError { line_no, value: string_of(&chars), kind: ErrorKind::InvalidSeparator },
        );
    }
    let user_text = trim_blanks(&parts[0]);
    let user_id = match parse_i64(&user_text) {
        Option::None => {
            return Err(
                ParseError { line_no, value: string_of(&user_text), kind: ErrorKind::InvalidUserId },
            );
        },
        Option::Some(u) => u,
    };
    let items_part = trim_blanks(&parts[1]);
    let fields = split_on(&items_part, ',');
    let ghost field_views = line_item_fields(line@);
    proof {
        assert(fields@.map_values(|p: Vec<char>| p@) == field_views);
    }
    let mut items: Vec<i64> = Vec::new();
    let mut j: usize = 0;
    while j < fields.len()
        invariant
            j <= fields@.len(),
            field_views == fields@.map_values(|p: Vec<char>| p@),
            field_views == line_item_fields(line@),
            line_parts_ok(line@),
            parse_i64_spec(line_user_text(line@)) == Some(user_id),
            forall|t: int| 0 <= t < j ==> parse_i64_spec(#[trigger] field_views[t]) is Some,
            items@.len() == j,
            forall|t: int|
                0 <= t < j ==> items@[t] == parse_i64_spec(#[trigger] field_views[t])->0,
        decreases fields@.len() - j,
    {
        proof {
            assert(field_views[j as int] == fields@[j as int]@);
        }
        match parse_i64(&fields[j]) {
            Option::None => {
                proof {
                    lemma_first_bad_field_at(field_views, j as int);
                }
                return Err(
                    ParseError {
                        line_no,
                        value: string_of(&fields[j]),
                        kind: ErrorKind::InvalidItem,
                    },
                );
            },
            Option::Some(x) => {
                items.push(x);
            },
        }
        j = j + 1;
    }
    proof {
        assert(items@ =~= dataset_line_items(line@));
    }
    Ok(EvaluationRecord { user_id, items })
}

/// Where a history of length `n` is cut: the first `(4 n) / 5` items
/// (that is, 80% rounded down) are the train part.
pub open spec fn split_point(n: int) -> int {
    (4 * n) / 5
}

/// Cuts a history into its train prefix and test suffix by position.
pub fn split_train_test(items: &Vec<i64>) -> (r: (Vec<i64>, Vec<i64>))
    ensures
        r.0@ == items@.take(split_point(items@.len() as int)),
        r.1@ == items@.skip(split_point(items@.len() as int)),
{
    let n = items.len();
    let cut_wide: u128 = (n as u128) * 4 / 5;
    proof {
        assert(cut_wide == split_point(n as int));
        assert((4 * (n as int)) / 5 <= n as int) by (nonlinear_arith);
        assert((4 * (n as int)) / 5 >= 0) by (nonlinear_arith);
    }
    let cut = cut_wide as usize;
    let mut train: Vec<i64> = Vec::new();
    let mut i: usize = 0;
    while i < cut
        invariant
            cut <= n == items@.len(),
            i <= cut,
            train@ == items@.take(cut as int).take(i as int),
        decreases cut - i,
    {
        train.push(items[i]);
        proof {
            assert(items@.take(cut as int).take(i + 1) =~= items@.take(cut as int).take(
                i as int,
            ).push(items@[i as int]));
        }
        i = i + 1;
    }
    let mut test: Vec<i64> = Vec::new();
    let mut j: usize = cut;
    while j < n
        invariant
            cut <= j <= n == items@.len(),
            test@ == items@.subrange(cut as int, j as int),
        decreases n - j,
    {
        test.push(items[j]);
        proof {
            assert(items@.subrange(cut as int, j + 1) =~= items@.subrange(
                cut as int,
                j as int,
            ).push(items@[j as int]));
        }
        j = j + 1;
    }
    proof {
        assert(train@ =~= items@.take(cut as int));
        assert(test@ =~= items@.skip(cut as int));
    }
    (train, test)
}

/// Whether `x` occurs in `v`.
pub fn vec_contains(v: &Vec<i64>, x: i64) -> (r: bool)
    ensures
        r == v@.contains(x),
{
    let mut j: usize = 0;
    while j < v.len()
        invariant
            j <= v@.len(),
            forall|t: int| 0 <= t < j ==> v@[t] != x,
        decreases v@.len() - j,
    {
        if v[j] == x {
            return true;
        }
        j = j + 1;
    }
    false
}

/// How many distinct recommended items occur in the test part: the
/// size of the intersection of the two sets of items.
pub open spec fn hit_count(test: Seq<i64>, recommended: Seq<i64>) -> int {
    recommended.to_set().intersect(test.to_set()).len() as int
}

/// Counts the hits, exactly as [`hit_count`] states. Duplicates in the
/// recommendation count once; order plays no role.
pub fn count_hits(test: &Vec<i64>, recommended: &Vec<i64>) -> (n: usize)
    ensures
        n == hit_count(test@, recommended@),
{
    let ghost tset = test@.to_set();
    let mut seen: Vec<i64> = Vec::new();
    let mut n: usize = 0;
    let mut i: usize = 0;
    proof {
        broadcast use vstd::set::group_set_axioms;
        assert(recommended@.take(0) =~= Seq::<i64>::empty());
        assert(seen@ =~= Seq::<i64>::empty());
        assert(Seq::<i64>::empty().to_set() =~= Set::<i64>::empty());
        assert(Set::<i64>::empty().intersect(tset) =~= Set::<i64>::empty());
    }
    while i < recommended.len()
        invariant
            i <= recommended@.len(),
            tset == test@.to_set(),
            seen@.to_set() == recommended@.take(i as int).to_set(),
            n == recommended@.take(i as int).to_set().intersect(tset).len(),
            n <= i,
        decreases recommended@.len() - i,
    {
        let ghost pset = recommended@.take(i as int).to_set();
        let c = recommended[i];
        proof {
            broadcast use vstd::set::group_set_axioms;
            broadcast use vstd::seq_lib::seq_to_set_is_finite;
            Seq::<i64>::lemma_to_set_insert_commutes(recommended@.take(i as int), c);
            assert(recommended@.take(i + 1) =~= recommended@.take(i as int) + seq![c]);
            assert(recommended@.take(i + 1).to_set() == pset.insert(c));
        }
        if !vec_contains(&seen, c) {
            let ghost sseen = seen@;
            seen.push(c);
            proof {
                broadcast use vstd::set::group_set_axioms;
                Seq::<i64>::lemma_to_set_insert_commutes(sseen, c);
                assert(seen@ =~= sseen + seq![c]);
                assert(seen@.to_set() == sseen.to_set().insert(c));
            }
            if vec_contains(test, c) {
                proof {
                    broadcast use vstd::set::group_set_axioms;
                    broadcast use vstd::seq_lib::seq_to_set_is_finite;
                    assert(!pset.contains(c));
                    assert(pset.insert(c).intersect(tset) =~= pset.intersect(tset).insert(c));
                    assert(pset.finite());
                    assert(pset.intersect(tset).finite());
                    assert(pset.intersect(tset).insert(c).len() == pset.intersect(tset).len() + 1);
                }
                n = n + 1;
            } else {
                proof {
                    assert(pset.insert(c).intersect(tset) =~= pset.intersect(tset));
                }
            }
        } else {
            proof {
                assert(pset.insert(c) =~= pset);
            }
        }
        i = i + 1;
    }
    proof {
        assert(recommended@.take(recommended@.len() as int) =~= recommended@);
    }
    n
}

/// One user's outcome: hits among the held-out items, and how many
/// items were held out.
#[derive(Clone, Copy, PartialEq, Eq, Structural, Debug)]
pub struct UserScore {
    pub hits: usize,
    pub test_len: usize,
}

/// Scores one response against the held-out items.
pub fn score_user(test: &Vec<i64>, recommended: &Vec<i64>) -> (s: UserScore)
    ensures
        s.hits == hit_count(test@, recommended@),
        s.test_len == test@.len(),
{
    let hits = count_hits(test, recommended);
    UserScore { hits, test_len: test.len() }
}

/// Splits the record and scores the response against its test part.
/// This is the whole per-user decision once the recommender's answer
/// is in hand; it holds for every possible answer.
pub fn evaluate_response(record: &EvaluationRecord, recommended: &Vec<i64>) -> (s: UserScore)
    ensures
        s.hits == hit_count(
            record.items@.skip(split_point(record.items@.len() as int)),
            recommended@,
        ),
        s.test_len == record.items@.len() - split_point(record.items@.len() as int),
{
    let parts = split_train_test(&record.items);
    let test = parts.1;
    proof {
        assert((4 * (record.items@.len() as int)) / 5 >= 0) by (nonlinear_arith);
        assert((4 * (record.items@.len() as int)) / 5 <= record.items@.len() as int)
            by (nonlinear_arith);
    }
    score_user(&test, recommended)
}

/// The per-user ratio as a fraction. A user with an empty test part
/// scores zero, written `0 / 1`: the division that the caller performs
/// is thereby never a division by zero.
pub open spec fn ratio_parts(s: UserScore) -> (usize, usize) {
    if s.test_len == 0 {
        (0usize, 1usize)
    } else {
        (s.hits, s.test_len)
    }
}

impl UserScore {
    /// The guarded numerator and denominator of this score.
    pub fn guarded_ratio(&self) -> (r: (usize, usize))
        ensures
            r == ratio_parts(*self),
            r.1 >= 1,
    {
        if self.test_len == 0 {
            (0, 1)
        } else {
            (self.hits, self.test_len)
        }
    }
}

/// The running aggregate across users: every per-user score, in order.
pub struct AggregateScore {
    pub scores: Vec<UserScore>,
}

impl AggregateScore {
    /// An aggregate over no users yet.
    pub fn new() -> (r: AggregateScore)
        ensures
            r.scores@ == Seq::<UserScore>::empty(),
    {
        AggregateScore { scores: Vec::new() }
    }

    /// Accumulates one user's score.
    pub fn record(&mut self, s: UserScore)
        ensures
            final(self).scores@ == old(self).scores@.push(s),
    {
        self.scores.push(s);
    }

    /// How many users have been evaluated.
    pub fn user_count(&self) -> (n: usize)
        ensures
            n == self.scores@.len(),
    {
        self.scores.len()
    }

    /// The guarded ratios of all scores, in order, each with a nonzero
    /// denominator.
    pub fn ratios(&self) -> (r: Vec<(usize, usize)>)
        ensures
            r@ == self.scores@.map_values(|s: UserScore| ratio_parts(s)),
            forall|t: int| 0 <= t < r@.len() ==> (#[trigger] r@[t]).1 >= 1,
    {
        let mut r: Vec<(usize, usize)> = Vec::new();
        let mut i: usize = 0;
        while i < self.scores.len()
            invariant
                i <= self.scores@.len(),
                r@ == self.scores@.take(i as int).map_values(|s: UserScore| ratio_parts(s)),
                forall|t: int| 0 <= t < r@.len() ==> (#[trigger] r@[t]).1 >= 1,
            decreases self.scores@.len() - i,
        {
            let p = self.scores[i].guarded_ratio();
            r.push(p);
            proof {
                assert(self.scores@.take(i + 1) =~= self.scores@.take(i as int).push(
                    self.scores@[i as int],
                ));
                assert(r@ =~= self.scores@.take(i + 1).map_values(
                    |s: UserScore| ratio_parts(s),
                ));
            }
            i = i + 1;
        }
        proof {
            assert(self.scores@.take(self.scores@.len() as int) =~= self.scores@);
        }
        r
    }
}

} // verus!
