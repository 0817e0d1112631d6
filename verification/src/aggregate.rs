//! The aggregation pipeline: raw `user,item,timestamp` lines in,
//! per-user dataset lines out. Rows whose user or item field is the
//! `<nil>` marker are skipped silently; any other unparsable field is
//! fatal. Per user, adjacent duplicate items are collapsed and only
//! histories that still reach the activity threshold are emitted.

use vstd::prelude::*;
use crate::errors::{ErrorKind, ParseError};
use crate::num::{parse_i64, parse_i64_spec, parse_item, parse_item_spec, format_i64, i64_text};
use crate::text::{chars_of, split_char, split_on, string_of};

verus! {

/// The marker an upstream export writes for a missing value.
pub open spec fn nil_marker() -> Seq<char> {
    seq!['<', 'n', 'i', 'l', '>']
}

/// A field with one surrounding pair of double quotes loses them.
pub open spec fn strip_quotes_spec(s: Seq<char>) -> Seq<char> {
    if s.len() >= 2 && s[0] == '"' && s.last() == '"' {
        s.subrange(1, s.len() - 1)
    } else {
        s
    }
}

pub open spec fn raw_fields(line: Seq<char>) -> Seq<Seq<char>> {
    split_char(line, ',')
}

pub open spec fn row_has_fields(line: Seq<char>) -> bool {
    raw_fields(line).len() >= 2
}

pub open spec fn row_user_text(line: Seq<char>) -> Seq<char> {
    strip_quotes_spec(raw_fields(line)[0])
}

pub open spec fn row_item_text(line: Seq<char>) -> Seq<char> {
    strip_quotes_spec(raw_fields(line)[1])
}

/// A row carrying the null marker in either of its first two fields is
/// dropped without an error.
pub open spec fn row_is_skip(line: Seq<char>) -> bool {
    row_has_fields(line) && (row_user_text(line) == nil_marker() || row_item_text(line)
        == nil_marker())
}

/// What one raw line means: nothing, a record, or a fatal mistake.
#[derive(PartialEq, Eq, Structural)]
pub enum RowModel {
    Skip,
    Rec { user: i64, item: i64 },
    Bad,
}

pub open spec fn row_model(line: Seq<char>) -> RowModel {
    if !row_has_fields(line) {
        RowModel::Bad
    } else if row_is_skip(line) {
        RowModel::Skip
    } else {
        match parse_i64_spec(row_user_text(line)) {
            Option::None => RowModel::Bad,
            Option::Some(u) => match parse_item_spec(row_item_text(line)) {
                Option::None => RowModel::Bad,
                Option::Some(x) => RowModel::Rec { user: u, item: x },
            },
        }
    }
}

/// Which complaint a bad row earns.
pub open spec fn row_error_kind(line: Seq<char>) -> ErrorKind {
    if !row_has_fields(line) {
        ErrorKind::MissingField
    } else if parse_i64_spec(row_user_text(line)) is None {
        ErrorKind::InvalidUserId
    } else {
        ErrorKind::InvalidItemId
    }
}

/// The raw text a bad row is reported with.
pub open spec fn row_error_value(line: Seq<char>) -> Seq<char> {
    if !row_has_fields(line) {
        line
    } else if parse_i64_spec(row_user_text(line)) is None {
        row_user_text(line)
    } else {
        row_item_text(line)
    }
}

/// One accepted raw record, or a silent skip.
#[derive(PartialEq, Eq, Structural, Debug)]
pub enum RowOutcome {
    Skip,
    Record { user: i64, item: i64 },
}

/// Strips one pair of surrounding double quotes, if present.
pub fn strip_quotes(f: &Vec<char>) -> (r: Vec<char>)
    ensures
        r@ == strip_quotes_spec(f@),
{
    if f.len() >= 2 && f[0] == '"' && f[f.len() - 1] == '"' {
        let mut r: Vec<char> = Vec::new();
        let mut i: usize = 1;
        while i < f.len() - 1
            invariant
                f@.len() >= 2,
                1 <= i <= f@.len() - 1,
                r@ == f@.subrange(1, i as int),
            decreases f@.len() - i,
        {
            r.push(f[i]);
            proof {
                assert(f@.subrange(1, i + 1) =~= f@.subrange(1, i as int).push(f@[i as int]));
            }
            i = i + 1;
        }
        r
    } else {
        let mut r: Vec<char> = Vec::new();
        let mut i: usize = 0;
        while i < f.len()
            invariant
                i <= f@.len(),
                r@ == f@.take(i as int),
            decreases f@.len() - i,
        {
            r.push(f[i]);
            proof {
                assert(f@.take(i + 1) =~= f@.take(i as int).push(f@[i as int]));
            }
            i = i + 1;
        }
        proof {
            assert(f@.take(f@.len() as int) =~= f@);
        }
        r
    }
}

/// Whether the field is exactly the null marker.
pub fn is_nil_marker(f: &Vec<char>) -> (r: bool)
    ensures
        r == (f@ == nil_marker()),
{
    let r = f.len() == 5 && f[0] == '<' && f[1] == 'n' && f[2] == 'i' && f[3] == 'l' && f[4]
        == '>';
    proof {
        if r {
            assert(f@ =~= nil_marker());
        }
    }
    r
}

/// Reads one raw record line: a skip, a record, or the fatal error the
/// line deserves, as [`row_model`] states.
pub fn parse_raw_line(line: &str, line_no: u64) -> (r: Result<RowOutcome, ParseError>)
    ensures
        match r {
            Ok(RowOutcome::Skip) => row_model(line@) == RowModel::Skip,
            Ok(RowOutcome::Record { user, item }) => row_model(line@) == (RowModel::Rec {
                user,
                item,
            }),
            Err(e) => {
                &&& row_model(line@) == RowModel::Bad
                &&& e.line_no == line_no
                &&& e.kind == row_error_kind(line@)
                &&& e.value@ == row_error_value(line@)
            },
        },
{
    let chars = chars_of(line);
    let fields = split_on(&chars, ',');
    proof {
        assert(fields@.map_values(|p: Vec<char>| p@)[0] == fields@[0]@);
        if fields@.len() >= 2 {
            assert(fields@.map_values(|p: Vec<char>| p@)[1] == fields@[1]@);
        }
    }
    if fields.len() < 2 {
        return Err(ParseError { line_no, value: string_of(&chars), kind: ErrorKind::MissingField });
    }
    let f0 = strip_quotes(&fields[0]);
    let f1 = strip_quotes(&fields[1]);
    if is_nil_marker(&f0) || is_nil_marker(&f1) {
        return Ok(RowOutcome::Skip);
    }
    match parse_i64(&f0) {
        Option::None => Err(
            ParseError { line_no, value: string_of(&f0), kind: ErrorKind::InvalidUserId },
        ),
        Option::Some(user) => match parse_item(&f1) {
            Option::None => Err(
                ParseError { line_no, value: string_of(&f1), kind: ErrorKind::InvalidItemId },
            ),
            Option::Some(item) => Ok(RowOutcome::Record { user, item }),
        },
    }
}

/// One user's history: the items in encounter order.
#[derive(Debug)]
pub struct UserHistory {
    pub user_id: i64,
    pub items: Vec<i64>,
}

/// The mathematical shape of the aggregation state.
pub open spec fn hists_view(hs: Seq<UserHistory>) -> Seq<(i64, Seq<i64>)> {
    hs.map_values(|h: UserHistory| (h.user_id, h.items@))
}

/// Appends `x` to `u`'s history, or opens a history for `u` at the end.
pub open spec fn upsert(hist: Seq<(i64, Seq<i64>)>, u: i64, x: i64) -> Seq<(i64, Seq<i64>)>
    decreases hist.len(),
{
    if hist.len() == 0 {
        seq![(u, seq![x])]
    } else if hist[0].0 == u {
        seq![(u, hist[0].1.push(x))] + hist.drop_first()
    } else {
        seq![hist[0]] + upsert(hist.drop_first(), u, x)
    }
}

pub proof fn lemma_upsert_found(hist: Seq<(i64, Seq<i64>)>, k: int, u: i64, x: i64)
    requires
        0 <= k < hist.len(),
        hist[k].0 == u,
        forall|j: int| 0 <= j < k ==> (#[trigger] hist[j]).0 != u,
    ensures
        upsert(hist, u, x) == hist.update(k, (u, hist[k].1.push(x))),
    decreases k,
{
    if k == 0 {
        assert(upsert(hist, u, x) =~~= hist.update(0, (u, hist[0].1.push(x))));
    } else {
        let t = hist.drop_first();
        assert(forall|j: int| 0 <= j < k - 1 ==> (#[trigger] t[j]).0 != u) by {
            assert(forall|j: int| 0 <= j < t.len() ==> t[j] == hist[j + 1]);
        };
        lemma_upsert_found(t, k - 1, u, x);
        assert(upsert(hist, u, x) =~~= hist.update(k, (u, hist[k].1.push(x))));
    }
}

pub proof fn lemma_upsert_absent(hist: Seq<(i64, Seq<i64>)>, u: i64, x: i64)
    requires
        forall|j: int| 0 <= j < hist.len() ==> (#[trigger] hist[j]).0 != u,
    ensures
        upsert(hist, u, x) == hist.push((u, seq![x])),
    decreases hist.len(),
{
    if hist.len() == 0 {
        assert(upsert(hist, u, x) =~~= hist.push((u, seq![x])));
    } else {
        let t = hist.drop_first();
        assert(forall|j: int| 0 <= j < t.len() ==> (#[trigger] t[j]).0 != u) by {
            assert(forall|j: int| 0 <= j < t.len() ==> t[j] == hist[j + 1]);
        };
        lemma_upsert_absent(t, u, x);
        assert(upsert(hist, u, x) =~~= hist.push((u, seq![x])));
    }
}

/// Folds the accepted records of the first `n` lines into histories.
pub open spec fn agg_lines(lines: Seq<Seq<char>>, n: int) -> Seq<(i64, Seq<i64>)>
    decreases n,
{
    if n <= 0 {
        Seq::empty()
    } else {
        let prev = agg_lines(lines, n - 1);
        match row_model(lines[n - 1]) {
            RowModel::Rec { user, item } => upsert(prev, user, item),
            _ => prev,
        }
    }
}

/// No fatal line among the first `n`.
pub open spec fn lines_ok(lines: Seq<Seq<char>>, n: int) -> bool {
    forall|i: int| 0 <= i < n ==> row_model(#[trigger] lines[i]) != RowModel::Bad
}

/// Adds one accepted record to the in-memory state.
fn add_record(hist: &mut Vec<UserHistory>, u: i64, x: i64)
    ensures
        hists_view(final(hist)@) == upsert(hists_view(old(hist)@), u, x),
{
    let ghost orig = hists_view(hist@);
    let mut k: usize = 0;
    while k < hist.len()
        invariant
            k <= hist@.len(),
            orig == hists_view(hist@),
            orig == hists_view(old(hist)@),
            forall|j: int| 0 <= j < k ==> (#[trigger] hist@[j]).user_id != u,
        decreases hist@.len() - k,
    {
        if hist[k].user_id == u {
            let ghost pre = hist@;
            let mut h = hist.remove(k);
            h.items.push(x);
            hist.insert(k, h);
            proof {
                assert(hist@ =~= pre.update(k as int, h));
                assert(forall|j: int| 0 <= j < k ==> (#[trigger] orig[j]).0 != u);
                assert(orig[k as int].0 == u);
                lemma_upsert_found(orig, k as int, u, x);
                assert(hists_view(hist@) =~~= orig.update(k as int, (u, orig[k as int].1.push(x))));
                assert(hists_view(hist@) == upsert(orig, u, x));
            }
            return ;
        }
        k = k + 1;
    }
    proof {
        assert(forall|j: int| 0 <= j < orig.len() ==> (#[trigger] orig[j]).0 != u);
        lemma_upsert_absent(orig, u, x);
    }
    hist.push(UserHistory { user_id: u, items: vec![x] });
    proof {
        assert(hists_view(hist@) =~~= orig.push((u, seq![x])));
    }
}

/// Collapses runs of adjacent equal items to one occurrence.
pub open spec fn dedup_adjacent(s: Seq<i64>) -> Seq<i64>
    decreases s.len(),
{
    if s.len() <= 1 {
        s
    } else if s[0] == s[1] {
        dedup_adjacent(s.drop_first())
    } else {
        seq![s[0]] + dedup_adjacent(s.drop_first())
    }
}

/// The compressed history ends exactly where the history ends.
pub proof fn lemma_dedup_last(s: Seq<i64>)
    requires
        s.len() > 0,
    ensures
        dedup_adjacent(s).len() > 0,
        dedup_adjacent(s).last() == s.last(),
    decreases s.len(),
{
    if s.len() > 1 {
        lemma_dedup_last(s.drop_first());
    }
}

/// Growing the history by one item grows the compressed history unless
/// the item repeats the last one.
pub proof fn lemma_dedup_push(s: Seq<i64>, c: i64)
    ensures
        s.len() > 0 && s.last() == c ==> dedup_adjacent(s.push(c)) == dedup_adjacent(s),
        !(s.len() > 0 && s.last() == c) ==> dedup_adjacent(s.push(c)) == dedup_adjacent(s).push(c),
    decreases s.len(),
{
    if s.len() == 0 {
        assert(dedup_adjacent(s.push(c)) =~= s.push(c));
    } else if s.len() == 1 {
        assert(s.push(c).drop_first() =~= seq![c]);
        assert(dedup_adjacent(seq![c]) == seq![c]);
        if s[0] == c {
            assert(s =~= seq![c]);
            assert(dedup_adjacent(s.push(c)) =~= dedup_adjacent(s));
        } else {
            assert(dedup_adjacent(s.push(c)) =~= dedup_adjacent(s).push(c));
        }
    } else {
        let t = s.drop_first();
        assert(s.push(c).drop_first() =~= t.push(c));
        lemma_dedup_push(t, c);
        lemma_dedup_last(t);
        if s.last() == c {
            assert(dedup_adjacent(s.push(c)) =~= dedup_adjacent(s));
        } else {
            assert(dedup_adjacent(s.push(c)) =~= dedup_adjacent(s).push(c));
        }
    }
}

/// The compressed history, exactly as [`dedup_adjacent`] states.
pub fn dedup_adjacent_items(v: &Vec<i64>) -> (r: Vec<i64>)
    ensures
        r@ == dedup_adjacent(v@),
{
    let mut r: Vec<i64> = Vec::new();
    let mut i: usize = 0;
    while i < v.len()
        invariant
            i <= v@.len(),
            r@ == dedup_adjacent(v@.take(i as int)),
        decreases v@.len() - i,
    {
        let ghost prefix = v@.take(i as int);
        proof {
            lemma_dedup_push(prefix, v@[i as int]);
            assert(v@.take(i + 1) =~= prefix.push(v@[i as int]));
            if prefix.len() > 0 {
                lemma_dedup_last(prefix);
            }
        }
        let c = v[i];
        if r.len() == 0 {
            r.push(c);
        } else {
            if r[r.len() - 1] != c {
                r.push(c);
            }
        }
        i = i + 1;
    }
    proof {
        assert(v@.take(v@.len() as int) =~= v@);
    }
    r
}

/// The serialized items: decimal texts joined by commas.
pub open spec fn items_text(items: Seq<i64>) -> Seq<char>
    decreases items.len(),
{
    if items.len() == 0 {
        Seq::empty()
    } else if items.len() == 1 {
        i64_text(items[0] as int)
    } else {
        i64_text(items[0] as int) + seq![','] + items_text(items.drop_first())
    }
}

pub proof fn lemma_items_text_push(items: Seq<i64>, c: i64)
    ensures
        items.len() == 0 ==> items_text(items.push(c)) == i64_text(c as int),
        items.len() > 0 ==> items_text(items.push(c)) == items_text(items) + seq![','] + i64_text(
            c as int,
        ),
    decreases items.len(),
{
    if items.len() == 0 {
        assert(items_text(items.push(c)) =~= i64_text(c as int));
    } else if items.len() == 1 {
        assert(items.push(c).drop_first() =~= seq![c]);
        assert(items_text(seq![c]) == i64_text(c as int));
        assert(items_text(items.push(c)) =~= items_text(items) + seq![','] + i64_text(c as int));
    } else {
        let t = items.drop_first();
        assert(items.push(c).drop_first() =~= t.push(c));
        lemma_items_text_push(t, c);
        assert(items_text(items.push(c)) =~= items_text(items) + seq![','] + i64_text(c as int));
    }
}

/// One serialized dataset line, without the trailing newline.
pub open spec fn line_text(user: i64, items: Seq<i64>) -> Seq<char> {
    i64_text(user as int) + seq![':', ' '] + items_text(items)
}

/// Serializes one history, exactly as [`line_text`] states.
pub fn format_history(user_id: i64, items: &Vec<i64>) -> (r: String)
    ensures
        r@ == line_text(user_id, items@),
{
    let mut buf = format_i64(user_id);
    buf.push(':');
    buf.push(' ');
    proof {
        assert(buf@ =~= i64_text(user_id as int) + seq![':', ' '] + items_text(
            items@.take(0),
        ));
    }
    let mut j: usize = 0;
    while j < items.len()
        invariant
            j <= items@.len(),
            buf@ == i64_text(user_id as int) + seq![':', ' '] + items_text(items@.take(j as int)),
        decreases items@.len() - j,
    {
        let ghost prefix = items@.take(j as int);
        proof {
            lemma_items_text_push(prefix, items@[j as int]);
            assert(items@.take(j + 1) =~= prefix.push(items@[j as int]));
        }
        if j > 0 {
            buf.push(',');
        }
        let digits = format_i64(items[j]);
        let mut t: usize = 0;
        let ghost mid = buf@;
        while t < digits.len()
            invariant
                t <= digits@.len(),
                buf@ == mid + digits@.take(t as int),
            decreases digits@.len() - t,
        {
            buf.push(digits[t]);
            proof {
                assert(mid + digits@.take(t + 1) =~= (mid + digits@.take(t as int)).push(
                    digits@[t as int],
                ));
            }
            t = t + 1;
        }
        proof {
            assert(digits@.take(digits@.len() as int) =~= digits@);
            assert(buf@ =~= i64_text(user_id as int) + seq![':', ' '] + items_text(
                items@.take(j + 1),
            ));
        }
        j = j + 1;
    }
    proof {
        assert(items@.take(items@.len() as int) =~= items@);
    }
    string_of(&buf)
}

/// Whether a history survives compression and the activity filter.
pub open spec fn qualifies(p: (i64, Seq<i64>)) -> bool {
    dedup_adjacent(p.1).len() >= crate::activity_threshold()
}

/// The serialized dataset: one line per qualifying history, in state
/// order; histories below the threshold leave no trace.
pub open spec fn emit_lines(hist: Seq<(i64, Seq<i64>)>) -> Seq<Seq<char>>
    decreases hist.len(),
{
    if hist.len() == 0 {
        Seq::empty()
    } else {
        emit_lines(hist.drop_last()) + (if qualifies(hist.last()) {
            seq![line_text(hist.last().0, dedup_adjacent(hist.last().1))]
        } else {
            Seq::empty()
        })
    }
}

/// The views of a batch of lines.
pub open spec fn line_views(ls: Seq<String>) -> Seq<Seq<char>> {
    ls.map_values(|s: String| s@)
}

/// The whole aggregation pipeline over a batch of raw lines. On
/// success, the output is exactly [`emit_lines`] of the folded state;
/// on the first fatal line, its index, raw text and kind come back.
pub fn prepare_dataset(lines: &Vec<String>) -> (r: Result<Vec<String>, ParseError>)
    ensures
        match r {
            Ok(out) => {
                &&& lines_ok(line_views(lines@), lines@.len() as int)
                &&& line_views(out@) == emit_lines(
                    agg_lines(line_views(lines@), lines@.len() as int),
                )
            },
            Err(e) => {
                &&& e.line_no < lines@.len()
                &&& row_model(line_views(lines@)[e.line_no as int]) == RowModel::Bad
                &&& lines_ok(line_views(lines@), e.line_no as int)
                &&& e.kind == row_error_kind(line_views(lines@)[e.line_no as int])
                &&& e.value@ == row_error_value(line_views(lines@)[e.line_no as int])
            },
        },
{
    let ghost views = line_views(lines@);
    let mut hist: Vec<UserHistory> = Vec::new();
    let mut i: usize = 0;
    while i < lines.len()
        invariant
            i <= lines@.len(),
            views == line_views(lines@),
            lines_ok(views, i as int),
            hists_view(hist@) == agg_lines(views, i as int),
        decreases lines@.len() - i,
    {
        proof {
            assert(views[i as int] == lines@[i as int]@);
        }
        match parse_raw_line(lines[i].as_str(), i as u64) {
            Err(e) => {
                return Err(e);
            },
            Ok(RowOutcome::Skip) => {},
            Ok(RowOutcome::Record { user, item }) => {
                add_record(&mut hist, user, item);
            },
        }
        i = i + 1;
    }
    let mut out: Vec<String> = Vec::new();
    let ghost state = hists_view(hist@);
    let mut k: usize = 0;
    while k < hist.len()
        invariant
            k <= hist@.len(),
            state == hists_view(hist@),
            line_views(out@) == emit_lines(state.take(k as int)),
        decreases hist@.len() - k,
    {
        let ghost prefix = state.take(k as int);
        proof {
            assert(state.take(k + 1).drop_last() =~= prefix);
            assert(state.take(k + 1).last() == state[k as int]);
            assert(state[k as int] == (hist@[k as int].user_id, hist@[k as int].items@));
        }
        let d = dedup_adjacent_items(&hist[k].items);
        if d.len() >= 25 {
            let line = format_history(hist[k].user_id, &d);
            out.push(line);
            proof {
                assert(line_views(out@) =~~= emit_lines(state.take(k + 1)));
            }
        } else {
            proof {
                assert(line_views(out@) =~~= emit_lines(state.take(k + 1)));
            }
        }
        k = k + 1;
    }
    proof {
        assert(state.take(state.len() as int) =~= state);
    }
    Ok(out)
}

} // verus!
