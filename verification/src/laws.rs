//! The behavioural laws of the library, stated and proved once over
//! the specification functions that the executable contracts use: what
//! null-marker rows do to the aggregation state, that each active user
//! is serialised exactly once and each inactive user not at all, that
//! the dataset format round-trips, and that the train/test cut is an
//! orderly partition.

use vstd::prelude::*;
use crate::aggregate::{
    agg_lines, dedup_adjacent, emit_lines, items_text, lemma_upsert_absent, lemma_upsert_found,
    line_text, qualifies, upsert, RowModel, row_is_skip, row_model,
};
use crate::evaluate::{
    dataset_line_items, dataset_line_ok, dataset_line_user, line_item_fields, line_items_text,
    line_parts_ok, line_user_text, split_point,
};
use crate::num::{
    i64_text, is_digit, lemma_i64_text_plain, lemma_parse_format_i64, parse_i64_spec,
};
use crate::text::{
    is_blank, lemma_split_char_len, lemma_split_concat, lemma_split_no_sep, lemma_trim_end_at,
    lemma_trim_no_blanks, split_char, trim_start_spec,
};

verus! {

/// A raw row carrying the null marker is no error and adds nothing to
/// the aggregation state.
pub proof fn lemma_null_row_adds_nothing(lines: Seq<Seq<char>>, n: int)
    requires
        0 < n,
        row_is_skip(lines[n - 1]),
    ensures
        row_model(lines[n - 1]) == RowModel::Skip,
        agg_lines(lines, n) == agg_lines(lines, n - 1),
{
}

/// Every character of the serialized items is a digit, a minus sign or
/// a comma; and a nonempty history serialises to nonempty text.
pub proof fn lemma_items_text_plain(items: Seq<i64>)
    ensures
        items.len() >= 1 ==> items_text(items).len() >= 1,
        forall|j: int|
            0 <= j < items_text(items).len() ==> is_digit(#[trigger] items_text(items)[j])
                || items_text(items)[j] == '-' || items_text(items)[j] == ',',
    decreases items.len(),
{
    if items.len() == 0 {
    } else if items.len() == 1 {
        lemma_i64_text_plain(items[0] as int);
    } else {
        lemma_i64_text_plain(items[0] as int);
        lemma_items_text_plain(items.drop_first());
        let h = i64_text(items[0] as int);
        let t = items_text(items.drop_first());
        assert(items_text(items) == h + seq![','] + t);
        assert forall|j: int| 0 <= j < items_text(items).len() implies is_digit(
            #[trigger] items_text(items)[j],
        ) || items_text(items)[j] == '-' || items_text(items)[j] == ',' by {
            if j < h.len() {
                assert(items_text(items)[j] == h[j]);
            } else if j == h.len() {
                assert(items_text(items)[j] == ',');
            } else {
                assert(items_text(items)[j] == t[j - h.len() - 1]);
            }
        };
    }
}

/// The serialized items split back into one numeral per item.
proof fn lemma_split_items_text(items: Seq<i64>)
    requires
        items.len() >= 1,
    ensures
        split_char(items_text(items), ',') == items.map_values(|x: i64| i64_text(x as int)),
    decreases items.len(),
{
    if items.len() == 1 {
        lemma_i64_text_plain(items[0] as int);
        lemma_split_no_sep(items_text(items), ',');
        assert(split_char(items_text(items), ',') =~~= items.map_values(
            |x: i64| i64_text(x as int),
        ));
    } else {
        let h = i64_text(items[0] as int);
        let t = items_text(items.drop_first());
        lemma_i64_text_plain(items[0] as int);
        lemma_split_items_text(items.drop_first());
        assert(items_text(items) == h + seq![','] + t);
        lemma_split_concat(h, t, ',');
        assert(split_char(items_text(items), ',') =~~= items.map_values(
            |x: i64| i64_text(x as int),
        ));
    }
}

/// Round trip: a history serialised by the aggregation pipeline parses
/// back to the same user and the same ordered items.
pub proof fn lemma_round_trip(user: i64, items: Seq<i64>)
    requires
        items.len() >= 1,
    ensures
        dataset_line_ok(line_text(user, items)),
        dataset_line_user(line_text(user, items)) == user,
        dataset_line_items(line_text(user, items)) == items,
{
    let a = i64_text(user as int);
    let it = items_text(items);
    let b = seq![' '] + it;
    let s = line_text(user, items);
    lemma_i64_text_plain(user as int);
    lemma_items_text_plain(items);
    assert(forall|j: int| 0 <= j < a.len() ==> #[trigger] a[j] != ':' && a[j] != ' ' && !is_blank(
        a[j],
    ));
    assert(forall|j: int| 0 <= j < it.len() ==> #[trigger] it[j] != ':' && !is_blank(it[j]));
    assert(forall|j: int| 0 <= j < b.len() ==> #[trigger] b[j] != ':') by {
        assert(b[0] == ' ');
        assert(forall|j: int| 1 <= j < b.len() ==> b[j] == it[j - 1]);
    };
    assert(s =~= a + seq![':'] + b);
    lemma_split_concat(a, b, ':');
    lemma_split_no_sep(b, ':');
    assert(split_char(s, ':') =~~= seq![a, b]);
    lemma_split_char_len(s, ':');
    assert(line_parts_ok(s));
    assert(split_char(s, ':')[0] == a);
    lemma_trim_no_blanks(a);
    assert(line_user_text(s) == a);
    lemma_parse_format_i64(user);
    assert(parse_i64_spec(line_user_text(s)) == Some(user));
    assert(split_char(s, ':')[1] == b);
    assert(trim_start_spec(b) == trim_start_spec(b.drop_first()));
    assert(b.drop_first() =~= it);
    assert(trim_start_spec(it) == it);
    lemma_trim_end_at(it, it.len() as int);
    assert(it.take(it.len() as int) =~= it);
    assert(line_items_text(s) == it);
    lemma_split_items_text(items);
    assert(line_item_fields(s) == items.map_values(|x: i64| i64_text(x as int)));
    assert forall|i: int| 0 <= i < line_item_fields(s).len() implies parse_i64_spec(
        #[trigger] line_item_fields(s)[i],
    ) == Some(items[i]) by {
        lemma_parse_format_i64(items[i]);
        assert(line_item_fields(s)[i] == i64_text(items[i] as int));
    };
    assert(dataset_line_ok(s));
    assert(dataset_line_items(s) =~= items);
}

/// How often a line occurs in a batch of lines.
pub open spec fn line_count(ls: Seq<Seq<char>>, l: Seq<char>) -> int
    decreases ls.len(),
{
    if ls.len() == 0 {
        0
    } else {
        line_count(ls.drop_last(), l) + (if ls.last() == l {
            1int
        } else {
            0int
        })
    }
}

/// No two distinct histories belong to the same user.
pub open spec fn unique_users(hist: Seq<(i64, Seq<i64>)>) -> bool {
    forall|i: int, j: int|
        0 <= i < j < hist.len() ==> (#[trigger] hist[i]).0 != (#[trigger] hist[j]).0
}

/// Adding one record never creates a second history for any user.
pub proof fn lemma_upsert_unique(hist: Seq<(i64, Seq<i64>)>, u: i64, x: i64)
    requires
        unique_users(hist),
    ensures
        unique_users(upsert(hist, u, x)),
{
    let up = upsert(hist, u, x);
    if exists|k: int| 0 <= k < hist.len() && (#[trigger] hist[k]).0 == u {
        let k = choose|k: int| 0 <= k < hist.len() && (#[trigger] hist[k]).0 == u;
        assert(forall|j: int| 0 <= j < k ==> (#[trigger] hist[j]).0 != u);
        lemma_upsert_found(hist, k, u, x);
        assert(up == hist.update(k, (u, hist[k].1.push(x))));
        assert forall|i: int, j: int| 0 <= i < j < up.len() implies (#[trigger] up[i]).0 != (
        #[trigger] up[j]).0 by {
            assert(up[i].0 == hist[i].0);
            assert(up[j].0 == hist[j].0);
        };
    } else {
        assert(forall|j: int| 0 <= j < hist.len() ==> (#[trigger] hist[j]).0 != u);
        lemma_upsert_absent(hist, u, x);
        assert(up == hist.push((u, seq![x])));
        assert forall|i: int, j: int| 0 <= i < j < up.len() implies (#[trigger] up[i]).0 != (
        #[trigger] up[j]).0 by {
            assert(up[i].0 == hist[i].0);
            if j < up.len() - 1 {
                assert(up[j].0 == hist[j].0);
            } else {
                assert(up[j].0 == u);
            }
        };
    }
}

/// The aggregation state never holds two histories for one user.
pub proof fn lemma_agg_lines_unique(lines: Seq<Seq<char>>, n: int)
    ensures
        unique_users(agg_lines(lines, n)),
    decreases n,
{
    if n > 0 {
        lemma_agg_lines_unique(lines, n - 1);
        match row_model(lines[n - 1]) {
            RowModel::Rec { user, item } => {
                lemma_upsert_unique(agg_lines(lines, n - 1), user, item);
            },
            _ => {},
        }
    }
}

/// Among histories where every history of user `w` is below the
/// threshold, no emitted line belongs to `w`.
proof fn lemma_emit_users_differ(hist: Seq<(i64, Seq<i64>)>, w: i64)
    requires
        forall|j: int|
            0 <= j < hist.len() ==> ((#[trigger] hist[j]).0 == w ==> !qualifies(hist[j])),
    ensures
        forall|j: int|
            0 <= j < emit_lines(hist).len() ==> dataset_line_user(
                #[trigger] emit_lines(hist)[j],
            ) != w,
    decreases hist.len(),
{
    if hist.len() > 0 {
        let h = hist.drop_last();
        assert(forall|j: int|
            0 <= j < h.len() ==> ((#[trigger] h[j]).0 == w ==> !qualifies(h[j]))) by {
            assert(forall|j: int| 0 <= j < h.len() ==> h[j] == hist[j]);
        };
        lemma_emit_users_differ(h, w);
        if qualifies(hist.last()) {
            let d = dedup_adjacent(hist.last().1);
            assert(hist.last().0 != w);
            assert(d.len() >= 1);
            lemma_round_trip(hist.last().0, d);
            assert(emit_lines(hist) =~~= emit_lines(h).push(line_text(hist.last().0, d)));
            assert forall|j: int| 0 <= j < emit_lines(hist).len() implies dataset_line_user(
                #[trigger] emit_lines(hist)[j],
            ) != w by {
                if j < emit_lines(h).len() {
                    assert(emit_lines(hist)[j] == emit_lines(h)[j]);
                } else {
                    assert(emit_lines(hist)[j] == line_text(hist.last().0, d));
                }
            };
        } else {
            assert(emit_lines(hist) =~~= emit_lines(h));
        }
    }
}

/// Among histories that all belong to other users, a given user's line
/// never appears.
proof fn lemma_line_count_other_users(hist: Seq<(i64, Seq<i64>)>, w: i64, l: Seq<char>)
    requires
        forall|j: int| 0 <= j < hist.len() ==> (#[trigger] hist[j]).0 != w,
        dataset_line_ok(l),
        dataset_line_user(l) == w,
    ensures
        line_count(emit_lines(hist), l) == 0,
    decreases hist.len(),
{
    if hist.len() > 0 {
        let h = hist.drop_last();
        assert(forall|j: int| 0 <= j < h.len() ==> (#[trigger] h[j]).0 != w) by {
            assert(forall|j: int| 0 <= j < h.len() ==> h[j] == hist[j]);
        };
        lemma_line_count_other_users(h, w, l);
        if qualifies(hist.last()) {
            let d = dedup_adjacent(hist.last().1);
            assert(d.len() >= 1);
            lemma_round_trip(hist.last().0, d);
            assert(line_text(hist.last().0, d) != l) by {
                if line_text(hist.last().0, d) == l {
                    assert(dataset_line_user(l) == hist.last().0);
                }
            };
            assert(emit_lines(hist) =~~= emit_lines(h).push(line_text(hist.last().0, d)));
            assert(emit_lines(hist).drop_last() =~~= emit_lines(h));
        } else {
            assert(emit_lines(hist) =~~= emit_lines(h));
        }
    }
}

/// Exactly one dataset line is emitted for a user whose compressed
/// history reaches the activity threshold: the line holding all their
/// items in order, adjacent duplicates removed.
pub proof fn lemma_one_line_per_active_user(hist: Seq<(i64, Seq<i64>)>, k: int)
    requires
        unique_users(hist),
        0 <= k < hist.len(),
        qualifies(hist[k]),
    ensures
        line_count(emit_lines(hist), line_text(hist[k].0, dedup_adjacent(hist[k].1))) == 1,
    decreases hist.len(),
{
    let l = line_text(hist[k].0, dedup_adjacent(hist[k].1));
    let h = hist.drop_last();
    lemma_round_trip(hist[k].0, dedup_adjacent(hist[k].1));
    if k == hist.len() - 1 {
        assert(forall|j: int| 0 <= j < h.len() ==> (#[trigger] h[j]).0 != hist[k].0) by {
            assert(forall|j: int| 0 <= j < h.len() ==> h[j] == hist[j]);
        };
        lemma_line_count_other_users(h, hist[k].0, l);
        assert(emit_lines(hist) =~~= emit_lines(h).push(l));
        assert(emit_lines(hist).drop_last() =~~= emit_lines(h));
        assert(line_count(emit_lines(hist), l) == 1);
    } else {
        assert(unique_users(h) && 0 <= k < h.len() && qualifies(h[k]) && h[k] == hist[k]) by {
            assert(forall|j: int| 0 <= j < h.len() ==> h[j] == hist[j]);
        };
        lemma_one_line_per_active_user(h, k);
        if qualifies(hist.last()) {
            let d = dedup_adjacent(hist.last().1);
            assert(d.len() >= 1);
            lemma_round_trip(hist.last().0, d);
            assert(hist.last().0 != hist[k].0);
            assert(line_text(hist.last().0, d) != l) by {
                if line_text(hist.last().0, d) == l {
                    assert(dataset_line_user(l) == hist.last().0);
                }
            };
            assert(emit_lines(hist) =~~= emit_lines(h).push(line_text(hist.last().0, d)));
            assert(emit_lines(hist).drop_last() =~~= emit_lines(h));
            assert(line_count(emit_lines(hist), l) == 1);
        } else {
            assert(emit_lines(hist) =~~= emit_lines(h));
            assert(line_count(emit_lines(hist), l) == 1);
        }
    }
}

/// No dataset line at all is emitted for a user whose compressed
/// history stays below the activity threshold.
pub proof fn lemma_no_line_for_inactive_user(hist: Seq<(i64, Seq<i64>)>, k: int)
    requires
        unique_users(hist),
        0 <= k < hist.len(),
        !qualifies(hist[k]),
    ensures
        forall|j: int|
            0 <= j < emit_lines(hist).len() ==> dataset_line_user(
                #[trigger] emit_lines(hist)[j],
            ) != hist[k].0,
{
    assert(forall|j: int|
        0 <= j < hist.len() ==> ((#[trigger] hist[j]).0 == hist[k].0 ==> !qualifies(hist[j])))
        by {
        assert forall|j: int|
            0 <= j < hist.len() && (#[trigger] hist[j]).0 == hist[k].0 implies !qualifies(
            hist[j]) by {
            if j < k {
                assert(hist[j].0 != hist[k].0);
            } else if j > k {
                assert(hist[k].0 != hist[j].0);
            }
        };
    };
    lemma_emit_users_differ(hist, hist[k].0);
}

/// The train/test cut is an orderly partition: the train part holds
/// the first `floor(0.8 n)` items, the test part the remaining
/// `n - floor(0.8 n)`, nothing is lost, duplicated or reordered.
pub proof fn lemma_train_test_partition(items: Seq<i64>)
    ensures
        0 <= split_point(items.len() as int) <= items.len(),
        items.take(split_point(items.len() as int)).len() == split_point(items.len() as int),
        items.skip(split_point(items.len() as int)).len() == items.len() - split_point(
            items.len() as int,
        ),
        items.take(split_point(items.len() as int)) + items.skip(split_point(items.len() as int))
            == items,
{
    let n = items.len() as int;
    assert(0 <= (4 * n) / 5 <= n) by (nonlinear_arith)
        requires
            n >= 0,
    ;
    assert(items.take(split_point(n)) + items.skip(split_point(n)) =~= items);
}

} // verus!
