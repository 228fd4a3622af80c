//! Divergence analysis of two unsynchronised game instances: world snapshots
//! read from a session log are grouped by instance, aligned by snapshot seq,
//! and the drift of the shared sector state is summarised.
//!
//! Sim times are carried as the IEEE-754 bits of their `f64` values; the time
//! skew between aligned rows is floating-point arithmetic and is computed by
//! the caller from the rows.
use vstd::prelude::*;

use crate::json::{
    field_i64, field_number_bits, field_str, field_u64, json_field_i64, json_field_number_bits,
    json_field_str, json_field_u64, opt_text,
};
use crate::proto::EventEnvelope;
use crate::text::{eq_str, push_decimal, string_of};

verus! {

/// One world snapshot sample taken by one instance.
#[derive(Clone, Debug, PartialEq)]
pub struct Snapshot {
    /// Id of the instance (the server-assigned sender id).
    pub sender: u128,
    /// Per-instance snapshot counter.
    pub snap_seq: u64,
    /// Bits of the instance's sim time in seconds.
    pub t_bits: u64,
    pub sector: String,
    pub ships: i64,
    pub stations: i64,
}

/// One aligned comparison of the two instances at the same snapshot seq.
#[derive(Clone, Debug, PartialEq)]
pub struct DivergenceRow {
    pub snap_seq: u64,
    pub t_a_bits: u64,
    pub t_b_bits: u64,
    pub sector_a: String,
    pub sector_b: String,
    pub ships_a: i64,
    pub ships_b: i64,
    pub stations_a: i64,
    pub stations_b: i64,
}

/// The divergence report of a two-instance run.
#[derive(Clone, Debug, PartialEq)]
pub struct DivergenceReport {
    pub sender_a: u128,
    pub sender_b: u128,
    pub rows: Vec<DivergenceRow>,
    pub max_ship_delta: i64,
    pub max_station_delta: i64,
    pub any_sector_mismatch: bool,
}

#[derive(Clone, Copy, Debug, PartialEq, Eq, Structural)]
pub enum DivergenceError {
    /// Fewer than two instances sent samples; the number that did.
    NotTwoSenders(usize),
    /// The two instances share no snapshot seq.
    NoOverlap,
}

/// Fields of a `spike.worldsnap` payload as the JSON accessors read them
/// (`as_i64`, `as_u64`, the bits of `as_f64`, `as_str`); `None` where the field
/// is missing or of another type.
#[derive(Clone, Debug, PartialEq)]
pub struct WorldsnapFields {
    pub ships: Option<i64>,
    pub seq: Option<u64>,
    pub t_bits: Option<u64>,
    pub sector: Option<String>,
    pub stations: Option<i64>,
}

// ---------------------------------------------------------------------------
// Specification
// ---------------------------------------------------------------------------
/// |x - y|
pub open spec fn abs_diff(x: i64, y: i64) -> int {
    if x >= y {
        x - y
    } else {
        y - x
    }
}

/// The difference of two counts is never negative, does not depend on their
/// order, and is one count minus the other.
pub proof fn lemma_abs_diff(x: i64, y: i64)
    ensures
        abs_diff(x, y) >= 0,
        abs_diff(x, y) == abs_diff(y, x),
        abs_diff(x, y) == x - y || abs_diff(x, y) == y - x,
        abs_diff(x, x) == 0,
{
}

/// `(x - y).abs()` neither overflows nor panics.
pub open spec fn delta_fits(x: i64, y: i64) -> bool {
    i64::MIN < x - y <= i64::MAX
}

/// How many samples the instance `s` sent.
pub open spec fn sender_count(snaps: Seq<Snapshot>, s: u128) -> nat
    decreases snaps.len(),
{
    if snaps.len() == 0 {
        0
    } else {
        sender_count(snaps.drop_last(), s) + if snaps.last().sender == s {
            1nat
        } else {
            0nat
        }
    }
}

pub open spec fn has_sender(snaps: Seq<Snapshot>, s: u128) -> bool {
    exists|i: int| 0 <= i < snaps.len() && (#[trigger] snaps[i]).sender == s
}

/// The instances that sent samples.
pub open spec fn senders(snaps: Seq<Snapshot>) -> Set<u128> {
    Set::new(|s: u128| has_sender(snaps, s))
}

/// `x` comes before `y` when it sent more samples, or as many and has the smaller id.
pub open spec fn ranks_before(snaps: Seq<Snapshot>, x: u128, y: u128) -> bool {
    ||| sender_count(snaps, x) > sender_count(snaps, y)
    ||| (sender_count(snaps, x) == sender_count(snaps, y) && x < y)
}

pub open spec fn is_first_sender(snaps: Seq<Snapshot>, a: u128) -> bool {
    &&& has_sender(snaps, a)
    &&& forall|s: u128| #[trigger] has_sender(snaps, s) && s != a ==> ranks_before(snaps, a, s)
}

pub open spec fn is_second_sender(snaps: Seq<Snapshot>, a: u128, b: u128) -> bool {
    &&& has_sender(snaps, b)
    &&& b != a
    &&& forall|s: u128| #[trigger] has_sender(snaps, s) && s != a && s != b ==> ranks_before(snaps, b, s)
}

/// The instance with the most samples (smallest id among equals).
pub open spec fn first_sender(snaps: Seq<Snapshot>) -> u128 {
    choose|a: u128| is_first_sender(snaps, a)
}

/// The instance with the most samples after the first one.
pub open spec fn second_sender(snaps: Seq<Snapshot>) -> u128 {
    choose|b: u128| is_second_sender(snaps, first_sender(snaps), b)
}

/// The last sample of instance `s` with snapshot seq `q`.
pub open spec fn last_entry(snaps: Seq<Snapshot>, s: u128, q: u64) -> Option<Snapshot>
    decreases snaps.len(),
{
    if snaps.len() == 0 {
        None
    } else if snaps.last().sender == s && snaps.last().snap_seq == q {
        Some(snaps.last())
    } else {
        last_entry(snaps.drop_last(), s, q)
    }
}

/// Both instances have a sample with snapshot seq `q`.
pub open spec fn aligned(snaps: Seq<Snapshot>, a: u128, b: u128, q: u64) -> bool {
    last_entry(snaps, a, q) is Some && last_entry(snaps, b, q) is Some
}

pub open spec fn row_of(x: Snapshot, y: Snapshot) -> DivergenceRow {
    DivergenceRow {
        snap_seq: x.snap_seq,
        t_a_bits: x.t_bits,
        t_b_bits: y.t_bits,
        sector_a: x.sector,
        sector_b: y.sector,
        ships_a: x.ships,
        ships_b: y.ships,
        stations_a: x.stations,
        stations_b: y.stations,
    }
}

/// The row for snapshot seq `q`: the last samples of both instances at `q`.
pub open spec fn aligned_row(snaps: Seq<Snapshot>, a: u128, b: u128, q: u64) -> DivergenceRow {
    row_of(last_entry(snaps, a, q)->0, last_entry(snaps, b, q)->0)
}

/// `rows` holds one row per snapshot seq at which both `a` and `b` have a
/// sample, in increasing seq order, each built from their last samples there.
pub open spec fn rows_correct(
    snaps: Seq<Snapshot>,
    a: u128,
    b: u128,
    rows: Seq<DivergenceRow>,
) -> bool {
    &&& forall|i: int, j: int|
        0 <= i < j < rows.len() ==> (#[trigger] rows[i]).snap_seq < (#[trigger] rows[j]).snap_seq
    &&& forall|i: int|
        0 <= i < rows.len() ==> aligned(snaps, a, b, (#[trigger] rows[i]).snap_seq) && rows[i]
            == aligned_row(snaps, a, b, rows[i].snap_seq)
    &&& forall|q: u64|
        #[trigger] aligned(snaps, a, b, q) ==> exists|i: int|
            0 <= i < rows.len() && (#[trigger] rows[i]).snap_seq == q
}

/// Largest ship-count difference over the rows (0 when there is none).
pub open spec fn max_ship_delta_of(rows: Seq<DivergenceRow>) -> int
    decreases rows.len(),
{
    if rows.len() == 0 {
        0
    } else {
        let m = max_ship_delta_of(rows.drop_last());
        let d = abs_diff(rows.last().ships_a, rows.last().ships_b);
        if d > m {
            d
        } else {
            m
        }
    }
}

/// Largest station-count difference over the rows (0 when there is none).
pub open spec fn max_station_delta_of(rows: Seq<DivergenceRow>) -> int
    decreases rows.len(),
{
    if rows.len() == 0 {
        0
    } else {
        let m = max_station_delta_of(rows.drop_last());
        let d = abs_diff(rows.last().stations_a, rows.last().stations_b);
        if d > m {
            d
        } else {
            m
        }
    }
}

pub open spec fn any_sector_mismatch_of(rows: Seq<DivergenceRow>) -> bool {
    exists|i: int| 0 <= i < rows.len() && (#[trigger] rows[i]).sector_a@ != rows[i].sector_b@
}

/// The reported maxima: the largest ship (station) difference is at least
/// the difference of every row and is the difference of one of them, or 0
/// when there are no rows; a sector mismatch is reported exactly when some
/// row's two sectors differ.
pub proof fn lemma_max_deltas(rows: Seq<DivergenceRow>)
    ensures
        forall|i: int|
            0 <= i < rows.len() ==> max_ship_delta_of(rows) >= abs_diff(
                (#[trigger] rows[i]).ships_a,
                rows[i].ships_b,
            ) && max_station_delta_of(rows) >= abs_diff(rows[i].stations_a, rows[i].stations_b),
        rows.len() == 0 ==> max_ship_delta_of(rows) == 0 && max_station_delta_of(rows) == 0,
        rows.len() > 0 ==> exists|i: int|
            0 <= i < rows.len() && max_ship_delta_of(rows) == abs_diff(
                (#[trigger] rows[i]).ships_a,
                rows[i].ships_b,
            ),
        rows.len() > 0 ==> exists|i: int|
            0 <= i < rows.len() && max_station_delta_of(rows) == abs_diff(
                (#[trigger] rows[i]).stations_a,
                rows[i].stations_b,
            ),
        any_sector_mismatch_of(rows) <==> exists|i: int|
            0 <= i < rows.len() && (#[trigger] rows[i]).sector_a@ != rows[i].sector_b@,
    decreases rows.len(),
{
    if rows.len() > 0 {
        let init = rows.drop_last();
        let k = rows.len() - 1;
        lemma_max_deltas(init);
        assert forall|i: int| 0 <= i < rows.len() implies max_ship_delta_of(rows) >= abs_diff(
            (#[trigger] rows[i]).ships_a,
            rows[i].ships_b,
        ) && max_station_delta_of(rows) >= abs_diff(rows[i].stations_a, rows[i].stations_b) by {
            if i < k {
                assert(rows[i] == init[i]);
            }
        }
        if init.len() == 0 || max_ship_delta_of(rows) == abs_diff(rows[k].ships_a, rows[k].ships_b) {
            assert(max_ship_delta_of(rows) == abs_diff(rows[k].ships_a, rows[k].ships_b));
        } else {
            let i = choose|i: int|
                0 <= i < init.len() && max_ship_delta_of(init) == abs_diff(
                    (#[trigger] init[i]).ships_a,
                    init[i].ships_b,
                );
            assert(rows[i] == init[i]);
        }
        if init.len() == 0 || max_station_delta_of(rows) == abs_diff(
            rows[k].stations_a,
            rows[k].stations_b,
        ) {
            assert(max_station_delta_of(rows) == abs_diff(rows[k].stations_a, rows[k].stations_b));
        } else {
            let i = choose|i: int|
                0 <= i < init.len() && max_station_delta_of(init) == abs_diff(
                    (#[trigger] init[i]).stations_a,
                    init[i].stations_b,
                );
            assert(rows[i] == init[i]);
        }
    }
}

/// The differences of every aligned pair of the two chosen instances fit in `i64`.
pub open spec fn deltas_fit(snaps: Seq<Snapshot>) -> bool {
    senders(snaps).len() >= 2 ==> forall|q: u64|
        #[trigger] aligned(snaps, first_sender(snaps), second_sender(snaps), q) ==> {
            let r = aligned_row(snaps, first_sender(snaps), second_sender(snaps), q);
            delta_fits(r.ships_a, r.ships_b) && delta_fits(r.stations_a, r.stations_b)
        }
}

// ---------------------------------------------------------------------------
// Lemmas
// ---------------------------------------------------------------------------
proof fn lemma_last_entry_push(snaps: Seq<Snapshot>, x: Snapshot, s: u128, q: u64)
    ensures
        last_entry(snaps.push(x), s, q) == (if x.sender == s && x.snap_seq == q {
            Some(x)
        } else {
            last_entry(snaps, s, q)
        }),
{
    assert(snaps.push(x).drop_last() == snaps);
}

proof fn lemma_last_entry_props(snaps: Seq<Snapshot>, s: u128, q: u64)
    ensures
        last_entry(snaps, s, q) is Some <==> exists|i: int|
            0 <= i < snaps.len() && (#[trigger] snaps[i]).sender == s && snaps[i].snap_seq == q,
        last_entry(snaps, s, q) matches Some(x) ==> x.sender == s && x.snap_seq == q,
    decreases snaps.len(),
{
    if snaps.len() > 0 {
        let init = snaps.drop_last();
        lemma_last_entry_props(init, s, q);
        if exists|i: int| 0 <= i < snaps.len() && (#[trigger] snaps[i]).sender == s && snaps[i].snap_seq == q {
            let i = choose|i: int| 0 <= i < snaps.len() && (#[trigger] snaps[i]).sender == s && snaps[i].snap_seq == q;
            if i < snaps.len() - 1 {
                assert(init[i] == snaps[i]);
            }
        }
        if exists|i: int| 0 <= i < init.len() && (#[trigger] init[i]).sender == s && init[i].snap_seq == q {
            let i = choose|i: int| 0 <= i < init.len() && (#[trigger] init[i]).sender == s && init[i].snap_seq == q;
            assert(snaps[i] == init[i]);
        }
    }
}

/// The entry used for instance `s` at snapshot seq `q` is its last sample
/// there: a sample of `s` with seq `q` that no later sample of `s` with seq
/// `q` follows; there is none exactly when `s` sent no sample with seq `q`.
pub proof fn lemma_last_entry_is_last(snaps: Seq<Snapshot>, s: u128, q: u64)
    ensures
        last_entry(snaps, s, q) is None <==> forall|i: int|
            0 <= i < snaps.len() ==> !((#[trigger] snaps[i]).sender == s && snaps[i].snap_seq == q),
        last_entry(snaps, s, q) is Some ==> exists|i: int|
            0 <= i < snaps.len() && last_entry(snaps, s, q) == Some(#[trigger] snaps[i])
                && snaps[i].sender == s && snaps[i].snap_seq == q && forall|j: int|
                i < j < snaps.len() ==> !((#[trigger] snaps[j]).sender == s && snaps[j].snap_seq
                    == q),
    decreases snaps.len(),
{
    lemma_last_entry_props(snaps, s, q);
    if snaps.len() > 0 {
        let init = snaps.drop_last();
        let k = snaps.len() - 1;
        lemma_last_entry_is_last(init, s, q);
        if snaps.last().sender == s && snaps.last().snap_seq == q {
            assert(snaps[k] == snaps.last());
        } else if last_entry(init, s, q) is Some {
            let i = choose|i: int|
                0 <= i < init.len() && last_entry(init, s, q) == Some(#[trigger] init[i])
                    && init[i].sender == s && init[i].snap_seq == q && forall|j: int|
                    i < j < init.len() ==> !((#[trigger] init[j]).sender == s
                        && init[j].snap_seq == q);
            assert(snaps[i] == init[i]);
            assert forall|j: int| i < j < snaps.len() implies !((#[trigger] snaps[j]).sender == s
                && snaps[j].snap_seq == q) by {
                if j < k {
                    assert(snaps[j] == init[j]);
                }
            }
        }
    }
}

/// `sender_count` is the number of samples the instance sent.
pub proof fn lemma_sender_count_is_count(snaps: Seq<Snapshot>, s: u128)
    ensures
        sender_count(snaps, s) == snaps.filter(|x: Snapshot| x.sender == s).len(),
    decreases snaps.len(),
{
    reveal(Seq::filter);
    if snaps.len() > 0 {
        lemma_sender_count_is_count(snaps.drop_last(), s);
    }
}

proof fn lemma_sender_count_push(snaps: Seq<Snapshot>, x: Snapshot, s: u128)
    ensures
        sender_count(snaps.push(x), s) == sender_count(snaps, s) + if x.sender == s {
            1nat
        } else {
            0nat
        },
{
    assert(snaps.push(x).drop_last() == snaps);
}

proof fn lemma_first_unique(snaps: Seq<Snapshot>, a: u128)
    requires
        is_first_sender(snaps, a),
    ensures
        first_sender(snaps) == a,
{
    let c = first_sender(snaps);
    assert(is_first_sender(snaps, c));
    if c != a {
        assert(has_sender(snaps, c));
        assert(ranks_before(snaps, a, c));
        assert(has_sender(snaps, a));
        assert(ranks_before(snaps, c, a));
    }
}

proof fn lemma_second_unique(snaps: Seq<Snapshot>, a: u128, b: u128)
    requires
        is_first_sender(snaps, a),
        is_second_sender(snaps, a, b),
    ensures
        second_sender(snaps) == b,
{
    lemma_first_unique(snaps, a);
    let c = second_sender(snaps);
    assert(is_second_sender(snaps, a, c));
    if c != b {
        assert(has_sender(snaps, c));
        assert(ranks_before(snaps, b, c));
        assert(has_sender(snaps, b));
        assert(ranks_before(snaps, c, b));
    }
}

/// The rows of two instances are determined by the samples: two row lists that
/// both meet `rows_correct` are the same list.
pub proof fn lemma_rows_determined(
    snaps: Seq<Snapshot>,
    a: u128,
    b: u128,
    r1: Seq<DivergenceRow>,
    r2: Seq<DivergenceRow>,
)
    requires
        rows_correct(snaps, a, b, r1),
        rows_correct(snaps, a, b, r2),
    ensures
        r1 == r2,
{
    assert forall|k: int| 0 <= k < r1.len() && k < r2.len() implies r1[k].snap_seq
        == r2[k].snap_seq by {
        lemma_rows_agree_upto(snaps, a, b, r1, r2, k);
    }
    if r1.len() != r2.len() {
        let (x, y) = if r1.len() > r2.len() {
            (r1, r2)
        } else {
            (r2, r1)
        };
        let m = y.len() as int;
        let q = x[m].snap_seq;
        assert(aligned(snaps, a, b, q));
        let j = choose|j: int| 0 <= j < y.len() && (#[trigger] y[j]).snap_seq == q;
        assert(x[j].snap_seq == y[j].snap_seq);
        assert(x[j].snap_seq < x[m].snap_seq);
    }
    assert forall|k: int| 0 <= k < r1.len() implies r1[k] == r2[k] by {
        assert(r1[k] == aligned_row(snaps, a, b, r1[k].snap_seq));
        assert(r2[k] == aligned_row(snaps, a, b, r2[k].snap_seq));
    }
    assert(r1 =~= r2);
}

proof fn lemma_rows_agree_upto(
    snaps: Seq<Snapshot>,
    a: u128,
    b: u128,
    r1: Seq<DivergenceRow>,
    r2: Seq<DivergenceRow>,
    k: int,
)
    requires
        rows_correct(snaps, a, b, r1),
        rows_correct(snaps, a, b, r2),
        0 <= k < r1.len(),
        k < r2.len(),
    ensures
        r1[k].snap_seq == r2[k].snap_seq,
    decreases k,
{
    assert forall|j: int| 0 <= j < k implies r1[j].snap_seq == r2[j].snap_seq by {
        lemma_rows_agree_upto(snaps, a, b, r1, r2, j);
    }
    let q1 = r1[k].snap_seq;
    let q2 = r2[k].snap_seq;
    if q1 < q2 {
        assert(aligned(snaps, a, b, q1));
        let j = choose|j: int| 0 <= j < r2.len() && (#[trigger] r2[j]).snap_seq == q1;
        if j >= k {
            if j > k {
                assert(r2[k].snap_seq < r2[j].snap_seq);
            }
        } else {
            assert(r1[j].snap_seq < r1[k].snap_seq);
        }
    } else if q2 < q1 {
        assert(aligned(snaps, a, b, q2));
        let j = choose|j: int| 0 <= j < r1.len() && (#[trigger] r1[j]).snap_seq == q2;
        if j >= k {
            if j > k {
                assert(r1[k].snap_seq < r1[j].snap_seq);
            }
        } else {
            assert(r2[j].snap_seq < r2[k].snap_seq);
        }
    }
}

proof fn lemma_has_sender_count(snaps: Seq<Snapshot>, s: u128)
    ensures
        has_sender(snaps, s) <==> sender_count(snaps, s) > 0,
    decreases snaps.len(),
{
    if snaps.len() > 0 {
        let init = snaps.drop_last();
        lemma_has_sender_count(init, s);
        if has_sender(init, s) {
            let i = choose|i: int| 0 <= i < init.len() && (#[trigger] init[i]).sender == s;
            assert(snaps[i] == init[i]);
        }
        if has_sender(snaps, s) && snaps.last().sender != s {
            let i = choose|i: int| 0 <= i < snaps.len() && (#[trigger] snaps[i]).sender == s;
            assert(init[i] == snaps[i]);
        }
        if snaps.last().sender == s {
            assert(snaps[snaps.len() - 1].sender == s);
        }
    }
}

proof fn lemma_senders_finite(snaps: Seq<Snapshot>)
    ensures
        senders(snaps).finite(),
    decreases snaps.len(),
{
    if snaps.len() == 0 {
        assert(senders(snaps) =~= Set::<u128>::empty());
    } else {
        let init = snaps.drop_last();
        lemma_senders_finite(init);
        assert forall|s: u128| senders(snaps).contains(s) <==> #[trigger] senders(init).insert(
            snaps.last().sender,
        ).contains(s) by {
            lemma_has_sender_count(snaps, s);
            lemma_has_sender_count(init, s);
        }
        assert(senders(snaps) =~= senders(init).insert(snaps.last().sender));
    }
}

/// Every non-empty finite set of instances has one that ranks before all the others.
proof fn lemma_best_exists(snaps: Seq<Snapshot>, set: Set<u128>)
    requires
        set.finite(),
        set.len() > 0,
    ensures
        exists|a: u128|
            set.contains(a) && forall|s: u128|
                #[trigger] set.contains(s) && s != a ==> ranks_before(snaps, a, s),
    decreases set.len(),
{
    let c = set.choose();
    let rest = set.remove(c);
    if rest.len() == 0 {
        assert forall|s: u128| #[trigger] set.contains(s) && s != c implies ranks_before(
            snaps,
            c,
            s,
        ) by {
            assert(rest.contains(s));
        }
    } else {
        lemma_best_exists(snaps, rest);
        let a = choose|a: u128|
            rest.contains(a) && forall|s: u128|
                #[trigger] rest.contains(s) && s != a ==> ranks_before(snaps, a, s);
        if ranks_before(snaps, a, c) {
            assert forall|s: u128| #[trigger] set.contains(s) && s != a implies ranks_before(
                snaps,
                a,
                s,
            ) by {
                if s != c {
                    assert(rest.contains(s));
                }
            }
        } else {
            assert forall|s: u128| #[trigger] set.contains(s) && s != c implies ranks_before(
                snaps,
                c,
                s,
            ) by {
                if s != a {
                    assert(rest.contains(s));
                    assert(ranks_before(snaps, a, s));
                }
            }
        }
    }
}

/// Which two instances are compared: of two or more instances, the first
/// has more samples than every other one, or as many and the smaller id; the
/// second is another instance and ranks the same way before all the rest.
pub proof fn lemma_sender_choice(snaps: Seq<Snapshot>)
    requires
        senders(snaps).len() >= 2,
    ensures
        senders(snaps).finite(),
        is_first_sender(snaps, first_sender(snaps)),
        is_second_sender(snaps, first_sender(snaps), second_sender(snaps)),
        first_sender(snaps) != second_sender(snaps),
        sender_count(snaps, first_sender(snaps)) >= sender_count(snaps, second_sender(snaps)),
{
    lemma_senders_finite(snaps);
    let all = senders(snaps);
    lemma_best_exists(snaps, all);
    let a = choose|a: u128|
        all.contains(a) && forall|s: u128|
            #[trigger] all.contains(s) && s != a ==> ranks_before(snaps, a, s);
    assert forall|s: u128| #[trigger] has_sender(snaps, s) && s != a implies ranks_before(
        snaps,
        a,
        s,
    ) by {
        assert(all.contains(s));
    }
    assert(is_first_sender(snaps, a));
    lemma_first_unique(snaps, a);
    let rest = all.remove(a);
    lemma_best_exists(snaps, rest);
    let b = choose|b: u128|
        rest.contains(b) && forall|s: u128|
            #[trigger] rest.contains(s) && s != b ==> ranks_before(snaps, b, s);
    assert forall|s: u128| #[trigger] has_sender(snaps, s) && s != a && s != b implies ranks_before(
        snaps,
        b,
        s,
    ) by {
        assert(rest.contains(s));
    }
    assert(is_second_sender(snaps, a, b));
    lemma_second_unique(snaps, a, b);
    assert(ranks_before(snaps, a, b));
}

/// The samples of instances `a` and `b` only, in their order.
pub open spec fn keep_senders(snaps: Seq<Snapshot>, a: u128, b: u128) -> Seq<Snapshot> {
    snaps.filter(|x: Snapshot| x.sender == a || x.sender == b)
}

proof fn lemma_keep_senders(snaps: Seq<Snapshot>, a: u128, b: u128, s: u128, q: u64)
    ensures
        sender_count(keep_senders(snaps, a, b), s) == (if s == a || s == b {
            sender_count(snaps, s)
        } else {
            0
        }),
        last_entry(keep_senders(snaps, a, b), s, q) == (if s == a || s == b {
            last_entry(snaps, s, q)
        } else {
            None
        }),
    decreases snaps.len(),
{
    reveal(Seq::filter);
    if snaps.len() > 0 {
        let init = snaps.drop_last();
        let x = snaps.last();
        lemma_keep_senders(init, a, b, s, q);
        if x.sender == a || x.sender == b {
            assert(keep_senders(snaps, a, b) == keep_senders(init, a, b).push(x));
            lemma_sender_count_push(keep_senders(init, a, b), x, s);
            lemma_last_entry_push(keep_senders(init, a, b), x, s, q);
        } else {
            assert(keep_senders(snaps, a, b) == keep_senders(init, a, b));
        }
    }
}

/// Only the two compared instances matter: dropping the samples of every
/// other instance leaves the same two instances compared, the same aligned
/// seqs and rows, and the same overflow condition, so `compute_divergence`
/// gives the same result on the kept samples.
pub proof fn lemma_other_senders_ignored(snaps: Seq<Snapshot>)
    requires
        senders(snaps).len() >= 2,
    ensures
        ({
            let a = first_sender(snaps);
            let b = second_sender(snaps);
            let kept = keep_senders(snaps, a, b);
            &&& senders(kept).finite()
            &&& senders(kept).len() == 2
            &&& first_sender(kept) == a
            &&& second_sender(kept) == b
            &&& forall|q: u64| #[trigger]
                aligned(kept, a, b, q) == aligned(snaps, a, b, q)
            &&& forall|q: u64| #[trigger]
                aligned_row(kept, a, b, q) == aligned_row(snaps, a, b, q)
            &&& forall|rows: Seq<DivergenceRow>| #[trigger]
                rows_correct(kept, a, b, rows) == rows_correct(snaps, a, b, rows)
            &&& deltas_fit(kept) == deltas_fit(snaps)
        }),
{
    lemma_sender_choice(snaps);
    let a = first_sender(snaps);
    let b = second_sender(snaps);
    let kept = keep_senders(snaps, a, b);
    assert forall|s: u128| #[trigger] senders(kept).contains(s) <==> set![a, b].contains(s) by {
        lemma_keep_senders(snaps, a, b, s, 0);
        lemma_has_sender_count(kept, s);
        lemma_has_sender_count(snaps, s);
    }
    assert(senders(kept) =~= set![a, b]);
    assert(set![a, b].len() == 2) by {
        assert(set![a, b] == Set::<u128>::empty().insert(a).insert(b));
    }
    lemma_keep_senders(snaps, a, b, a, 0);
    lemma_keep_senders(snaps, a, b, b, 0);
    lemma_has_sender_count(kept, a);
    lemma_has_sender_count(kept, b);
    lemma_has_sender_count(snaps, a);
    lemma_has_sender_count(snaps, b);
    assert forall|s: u128| #[trigger] has_sender(kept, s) && s != a implies ranks_before(
        kept,
        a,
        s,
    ) by {
        assert(senders(kept).contains(s));
    }
    assert(is_first_sender(kept, a));
    assert forall|s: u128| #[trigger] has_sender(kept, s) && s != a && s != b implies ranks_before(
        kept,
        b,
        s,
    ) by {
        assert(senders(kept).contains(s));
    }
    assert(is_second_sender(kept, a, b));
    lemma_first_unique(kept, a);
    lemma_second_unique(kept, a, b);
    assert forall|q: u64|
        #[trigger] aligned(kept, a, b, q) == aligned(snaps, a, b, q) && aligned_row(kept, a, b, q)
            == aligned_row(snaps, a, b, q) by {
        lemma_keep_senders(snaps, a, b, a, q);
        lemma_keep_senders(snaps, a, b, b, q);
    }
    assert forall|q: u64| #[trigger] aligned_row(kept, a, b, q) == aligned_row(snaps, a, b, q) by {
        lemma_keep_senders(snaps, a, b, a, q);
        lemma_keep_senders(snaps, a, b, b, q);
    }
    assert forall|rows: Seq<DivergenceRow>| #[trigger]
        rows_correct(kept, a, b, rows) == rows_correct(snaps, a, b, rows) by {
        if rows_correct(kept, a, b, rows) {
            lemma_rows_correct_same(kept, snaps, a, b, rows);
        }
        if rows_correct(snaps, a, b, rows) {
            lemma_rows_correct_same(snaps, kept, a, b, rows);
        }
    }
    assert(deltas_fit(kept) == deltas_fit(snaps)) by {
        if deltas_fit(snaps) {
            assert forall|q: u64| #[trigger] aligned(kept, a, b, q) implies ({
                let r = aligned_row(kept, a, b, q);
                delta_fits(r.ships_a, r.ships_b) && delta_fits(r.stations_a, r.stations_b)
            }) by {
                assert(aligned(snaps, a, b, q));
            }
        }
        if deltas_fit(kept) {
            assert forall|q: u64| #[trigger] aligned(snaps, a, b, q) implies ({
                let r = aligned_row(snaps, a, b, q);
                delta_fits(r.ships_a, r.ships_b) && delta_fits(r.stations_a, r.stations_b)
            }) by {
                assert(aligned(kept, a, b, q));
            }
        }
    }
}

proof fn lemma_rows_correct_same(
    s1: Seq<Snapshot>,
    s2: Seq<Snapshot>,
    a: u128,
    b: u128,
    rows: Seq<DivergenceRow>,
)
    requires
        forall|q: u64| #[trigger] aligned(s1, a, b, q) == aligned(s2, a, b, q),
        forall|q: u64| #[trigger] aligned_row(s1, a, b, q) == aligned_row(s2, a, b, q),
        rows_correct(s1, a, b, rows),
    ensures
        rows_correct(s2, a, b, rows),
{
    assert forall|i: int| 0 <= i < rows.len() implies aligned(
        s2,
        a,
        b,
        (#[trigger] rows[i]).snap_seq,
    ) && rows[i] == aligned_row(s2, a, b, rows[i].snap_seq) by {
        assert(aligned(s1, a, b, rows[i].snap_seq));
        assert(aligned_row(s1, a, b, rows[i].snap_seq) == aligned_row(s2, a, b, rows[i].snap_seq));
    }
    assert forall|q: u64| #[trigger] aligned(s2, a, b, q) implies exists|i: int|
        0 <= i < rows.len() && (#[trigger] rows[i]).snap_seq == q by {
        assert(aligned(s1, a, b, q));
    }
}

// ---------------------------------------------------------------------------
// Rows
// ---------------------------------------------------------------------------
impl DivergenceRow {
    /// |ships_a - ships_b|
    pub fn ship_delta(&self) -> (r: i64)
        requires
            delta_fits(self.ships_a, self.ships_b),
        ensures
            r == abs_diff(self.ships_a, self.ships_b),
    {
        let d = self.ships_a - self.ships_b;
        if d < 0 {
            -d
        } else {
            d
        }
    }

    /// |stations_a - stations_b|
    pub fn station_delta(&self) -> (r: i64)
        requires
            delta_fits(self.stations_a, self.stations_b),
        ensures
            r == abs_diff(self.stations_a, self.stations_b),
    {
        let d = self.stations_a - self.stations_b;
        if d < 0 {
            -d
        } else {
            d
        }
    }

    /// The two instances were in different sectors.
    pub fn sector_mismatch(&self) -> (r: bool)
        ensures
            r == (self.sector_a@ != self.sector_b@),
    {
        !(self.sector_a == self.sector_b)
    }
}

fn make_row(x: &Snapshot, y: &Snapshot) -> (r: DivergenceRow)
    ensures
        r == row_of(*x, *y),
{
    DivergenceRow {
        snap_seq: x.snap_seq,
        t_a_bits: x.t_bits,
        t_b_bits: y.t_bits,
        sector_a: x.sector.clone(),
        sector_b: y.sector.clone(),
        ships_a: x.ships,
        ships_b: y.ships,
        stations_a: x.stations,
        stations_b: y.stations,
    }
}

/// Index of the last sample of instance `s` with snapshot seq `q`.
fn last_entry_index(snaps: &[Snapshot], s: u128, q: u64) -> (r: Option<usize>)
    ensures
        match r {
            Some(i) => i < snaps@.len() && last_entry(snaps@, s, q) == Some(snaps@[i as int]),
            None => last_entry(snaps@, s, q) is None,
        },
{
    let mut found: Option<usize> = None;
    let n = snaps.len();
    for i in 0..n
        invariant
            n == snaps@.len(),
            match found {
                Some(k) => k < i && last_entry(snaps@.take(i as int), s, q) == Some(
                    snaps@[k as int],
                ),
                None => last_entry(snaps@.take(i as int), s, q) is None,
            },
    {
        proof {
            assert(snaps@.take(i + 1) == snaps@.take(i as int).push(snaps@[i as int]));
            lemma_last_entry_push(snaps@.take(i as int), snaps@[i as int], s, q);
        }
        if snaps[i].sender == s && snaps[i].snap_seq == q {
            found = Some(i);
        }
    }
    assert(snaps@.take(n as int) == snaps@);
    found
}

/// `q` is a snapshot seq of instance `s` after `prev` (any seq when `prev` is `None`).
pub open spec fn seq_after(snaps: Seq<Snapshot>, s: u128, prev: Option<u64>, q: u64) -> bool {
    &&& last_entry(snaps, s, q) is Some
    &&& after(prev, q)
}

pub open spec fn after(prev: Option<u64>, q: u64) -> bool {
    prev matches Some(p) ==> p < q
}

/// The smallest snapshot seq of instance `s` after `prev`.
fn next_seq_after(snaps: &[Snapshot], s: u128, prev: Option<u64>) -> (r: Option<u64>)
    ensures
        match r {
            Some(q) => seq_after(snaps@, s, prev, q) && forall|q2: u64|
                #[trigger] seq_after(snaps@, s, prev, q2) ==> q <= q2,
            None => forall|q2: u64| !(#[trigger] seq_after(snaps@, s, prev, q2)),
        },
{
    let mut best: Option<u64> = None;
    let n = snaps.len();
    for i in 0..n
        invariant
            n == snaps@.len(),
            match best {
                Some(q) => (exists|k: int|
                    0 <= k < i && (#[trigger] snaps@[k]).sender == s && snaps@[k].snap_seq == q)
                    && after(prev, q) && forall|k: int|
                    0 <= k < i && (#[trigger] snaps@[k]).sender == s && after(prev, snaps@[k].snap_seq)
                        ==> q <= snaps@[k].snap_seq,
                None => forall|k: int|
                    0 <= k < i && (#[trigger] snaps@[k]).sender == s ==> !after(prev, snaps@[k].snap_seq),
            },
    {
        let x = &snaps[i];
        let later = match prev {
            Some(p) => p < x.snap_seq,
            None => true,
        };
        if x.sender == s && later {
            match best {
                Some(q) => {
                    if x.snap_seq < q {
                        best = Some(x.snap_seq);
                    }
                },
                None => {
                    best = Some(x.snap_seq);
                },
            }
        }
        assert(snaps@[i as int] == *x);
    }
    proof {
        assert forall|q2: u64| #[trigger] seq_after(snaps@, s, prev, q2) <==> exists|k: int|
            0 <= k < snaps@.len() && (#[trigger] snaps@[k]).sender == s && snaps@[k].snap_seq == q2 && after(prev, q2) by {
            lemma_last_entry_props(snaps@, s, q2);
        }
        if let Some(q) = best {
            let k = choose|k: int| 0 <= k < n && (#[trigger] snaps@[k]).sender == s && snaps@[k].snap_seq == q;
            assert(seq_after(snaps@, s, prev, q));
        }
    }
    best
}

/// The rows of the two instances `a` and `b`, by increasing snapshot seq.
fn aligned_rows(snaps: &[Snapshot], a: u128, b: u128) -> (rows: Vec<DivergenceRow>)
    ensures
        rows_correct(snaps@, a, b, rows@),
{
    let mut rows: Vec<DivergenceRow> = Vec::new();
    let mut prev: Option<u64> = None;
    loop
        invariant
            forall|i: int, j: int|
                0 <= i < j < rows@.len() ==> (#[trigger] rows@[i]).snap_seq < (
                #[trigger] rows@[j]).snap_seq,
            forall|i: int|
                0 <= i < rows@.len() ==> aligned(snaps@, a, b, (#[trigger] rows@[i]).snap_seq)
                    && rows@[i] == aligned_row(snaps@, a, b, rows@[i].snap_seq),
            match prev {
                Some(p) => forall|i: int| 0 <= i < rows@.len() ==> (#[trigger] rows@[i]).snap_seq <= p,
                None => rows@.len() == 0,
            },
            forall|q: u64|
                #[trigger] aligned(snaps@, a, b, q) && (prev matches Some(p) && q <= p) ==> exists|i: int|
                    0 <= i < rows@.len() && (#[trigger] rows@[i]).snap_seq == q,
        decreases
                (match prev {
                    Some(p) => u64::MAX - p,
                    None => u64::MAX + 1,
                }),
    {
        let next = next_seq_after(snaps, a, prev);
        match next {
            None => {
                proof {
                    assert forall|q: u64| #[trigger] aligned(snaps@, a, b, q) implies exists|i: int|
                        0 <= i < rows@.len() && (#[trigger] rows@[i]).snap_seq == q by {
                        assert(!seq_after(snaps@, a, prev, q));
                    }
                }
                return rows;
            },
            Some(q) => {
                let ia = last_entry_index(snaps, a, q);
                let ib = last_entry_index(snaps, b, q);
                let ghost old_rows = rows@;
                match (ia, ib) {
                    (Some(i), Some(j)) => {
                        proof {
                            lemma_last_entry_props(snaps@, a, q);
                        }
                        let row = make_row(&snaps[i], &snaps[j]);
                        rows.push(row);
                        assert(rows@[old_rows.len() as int].snap_seq == q);
                    },
                    _ => {},
                }
                proof {
                    assert forall|q2: u64|
                        #[trigger] aligned(snaps@, a, b, q2) && q2 <= q implies exists|i: int|
                            0 <= i < rows@.len() && (#[trigger] rows@[i]).snap_seq == q2 by {
                        if prev matches Some(p) && q2 <= p {
                            let i = choose|i: int|
                                0 <= i < old_rows.len() && (#[trigger] old_rows[i]).snap_seq == q2;
                            assert(rows@[i] == old_rows[i]);
                        } else {
                            assert(seq_after(snaps@, a, prev, q2));
                            assert(q2 == q);
                            assert(rows@[old_rows.len() as int].snap_seq == q);
                        }
                    }
                    assert forall|i: int| 0 <= i < rows@.len() implies (#[trigger] rows@[i]).snap_seq
                        <= q by {
                        if i < old_rows.len() {
                            assert(rows@[i] == old_rows[i]);
                        }
                    }
                }
                prev = Some(q);
            },
        }
    }
}

fn max_deltas(rows: &Vec<DivergenceRow>) -> (r: (i64, i64, bool))
    requires
        forall|i: int|
            0 <= i < rows@.len() ==> delta_fits((#[trigger] rows@[i]).ships_a, rows@[i].ships_b)
                && delta_fits(rows@[i].stations_a, rows@[i].stations_b),
    ensures
        r.0 == max_ship_delta_of(rows@),
        r.1 == max_station_delta_of(rows@),
        r.2 == any_sector_mismatch_of(rows@),
{
    let mut ms: i64 = 0;
    let mut mt: i64 = 0;
    let mut any = false;
    let n = rows.len();
    for i in 0..n
        invariant
            n == rows@.len(),
            forall|k: int|
                0 <= k < rows@.len() ==> delta_fits((#[trigger] rows@[k]).ships_a, rows@[k].ships_b)
                    && delta_fits(rows@[k].stations_a, rows@[k].stations_b),
            ms == max_ship_delta_of(rows@.take(i as int)),
            mt == max_station_delta_of(rows@.take(i as int)),
            any == any_sector_mismatch_of(rows@.take(i as int)),
    {
        let ghost pre = rows@.take(i as int);
        let ghost pre2 = rows@.take(i + 1);
        assert(pre2.drop_last() == pre);
        assert(pre2.last() == rows@[i as int]);
        let row = &rows[i];
        let ds = row.ship_delta();
        let dt = row.station_delta();
        if ds > ms {
            ms = ds;
        }
        if dt > mt {
            mt = dt;
        }
        let mis = row.sector_mismatch();
        proof {
            if any {
                let k = choose|k: int| 0 <= k < pre.len() && (#[trigger] pre[k]).sector_a@ != pre[k].sector_b@;
                assert(pre2[k] == pre[k]);
            }
            if mis {
                assert(pre2[i as int] == rows@[i as int]);
            }
            if any_sector_mismatch_of(pre2) {
                let k = choose|k: int| 0 <= k < pre2.len() && (#[trigger] pre2[k]).sector_a@ != pre2[k].sector_b@;
                if k < i {
                    assert(pre[k] == pre2[k]);
                }
            }
        }
        any = any || mis;
    }
    assert(rows@.take(n as int) == rows@);
    (ms, mt, any)
}

// ---------------------------------------------------------------------------
// Sender selection
// ---------------------------------------------------------------------------
/// `s` sent one of the first `i` samples.
spec fn has_sender_in(snaps: Seq<Snapshot>, i: int, s: u128) -> bool {
    has_sender(snaps.take(i), s)
}

/// Position of `s` in `ids`.
fn find_id(ids: &Vec<u128>, s: u128) -> (r: Option<usize>)
    ensures
        match r {
            Some(p) => p < ids@.len() && ids@[p as int] == s,
            None => !ids@.contains(s),
        },
{
    let m = ids.len();
    for k in 0..m
        invariant
            m == ids@.len(),
            forall|j: int| 0 <= j < k ==> ids@[j] != s,
    {
        if ids[k] == s {
            return Some(k);
        }
    }
    None
}

/// The distinct senders of `snaps` with their sample counts.
fn count_senders(snaps: &[Snapshot]) -> (r: (Vec<u128>, Vec<usize>))
    ensures
        r.0@.len() == r.1@.len(),
        r.0@.no_duplicates(),
        forall|s: u128| #[trigger] has_sender(snaps@, s) <==> r.0@.contains(s),
        forall|k: int| 0 <= k < r.0@.len() ==> r.1@[k] == sender_count(snaps@, #[trigger] r.0@[k]),
{
    let mut ids: Vec<u128> = Vec::new();
    let mut counts: Vec<usize> = Vec::new();
    let n = snaps.len();
    for i in 0..n
        invariant
            n == snaps@.len(),
            ids@.len() == counts@.len(),
            ids@.no_duplicates(),
            forall|t: u128| has_sender_in(snaps@, i as int, t) <==> ids@.contains(t),
            forall|k: int|
                0 <= k < ids@.len() ==> counts@[k] == sender_count(
                    snaps@.take(i as int),
                    #[trigger] ids@[k],
                ),
            forall|k: int| 0 <= k < ids@.len() ==> counts@[k] <= i,
    {
        let ghost pre = snaps@.take(i as int);
        let ghost pre2 = snaps@.take(i + 1);
        let sid = snaps[i].sender;
        let ghost s = sid;
        assert(pre2 == pre.push(snaps@[i as int]));
        proof {
            assert forall|t: u128| #[trigger] has_sender(pre2, t) == (has_sender(pre, t) || t == s) by {
                if has_sender(pre, t) {
                    let k = choose|k: int| 0 <= k < pre.len() && (#[trigger] pre[k]).sender == t;
                    assert(pre2[k] == pre[k]);
                }
                if t == s {
                    assert(pre2[i as int].sender == t);
                }
                if has_sender(pre2, t) && t != s {
                    let k = choose|k: int| 0 <= k < pre2.len() && (#[trigger] pre2[k]).sender == t;
                    assert(pre[k] == pre2[k]);
                }
            }
            assert forall|t: u128| #[trigger] sender_count(pre2, t) == sender_count(pre, t) + if t == s {
                1nat
            } else {
                0nat
            } by {
                lemma_sender_count_push(pre, snaps@[i as int], t);
            }
        }
        let pos = find_id(&ids, sid);
        let ghost old_ids = ids@;
        match pos {
            Some(p) => {
                let c = counts[p];
                counts.set(p, c + 1);
                proof {
                    assert forall|k2: int| 0 <= k2 < ids@.len() implies counts@[k2] == sender_count(
                        pre2,
                        #[trigger] ids@[k2],
                    ) by {
                        if k2 != p {
                            assert(old_ids[k2] != s) by {
                                assert(old_ids[p as int] == s);
                            }
                        }
                    }
                }
            },
            None => {
                ids.push(sid);
                counts.push(1);
                proof {
                    assert(!old_ids.contains(s));
                    assert forall|a: int, b: int| 0 <= a < b < ids@.len() implies ids@[a] != ids@[b] by {
                        if b == old_ids.len() {
                            assert(old_ids.contains(old_ids[a]));
                        }
                    }
                    assert forall|t: u128| #[trigger] has_sender(pre2, t) <==> ids@.contains(t) by {
                        if old_ids.contains(t) {
                            let j = choose|j: int| 0 <= j < old_ids.len() && old_ids[j] == t;
                            assert(ids@[j] == t);
                        }
                        if ids@.contains(t) && t != s {
                            let j = choose|j: int| 0 <= j < ids@.len() && ids@[j] == t;
                            assert(j < old_ids.len());
                            assert(old_ids[j] == t);
                        }
                        if t == s {
                            assert(ids@[old_ids.len() as int] == s);
                        }
                    }
                    assert forall|k2: int| 0 <= k2 < ids@.len() implies counts@[k2] == sender_count(
                        pre2,
                        #[trigger] ids@[k2],
                    ) by {
                        if k2 < old_ids.len() {
                            assert(old_ids[k2] != s);
                            assert(ids@[k2] == old_ids[k2]);
                        } else {
                            assert(!has_sender(pre, s));
                            lemma_count_zero(pre, s);
                        }
                    }
                }
            },
        }
    }
    assert(snaps@.take(n as int) == snaps@);
    (ids, counts)
}

proof fn lemma_count_zero(snaps: Seq<Snapshot>, s: u128)
    requires
        !has_sender(snaps, s),
    ensures
        sender_count(snaps, s) == 0,
    decreases snaps.len(),
{
    if snaps.len() > 0 {
        assert(snaps.last().sender != s) by {
            assert(snaps[snaps.len() - 1] == snaps.last());
        }
        assert(!has_sender(snaps.drop_last(), s)) by {
            if has_sender(snaps.drop_last(), s) {
                let k = choose|k: int| 0 <= k < snaps.drop_last().len() && (#[trigger] snaps.drop_last()[k]).sender == s;
                assert(snaps[k] == snaps.drop_last()[k]);
            }
        }
        lemma_count_zero(snaps.drop_last(), s);
    }
}

/// Position of the best-ranked id, leaving out position `skip` when given.
fn best_ranked(ids: &Vec<u128>, counts: &Vec<usize>, skip: Option<usize>) -> (r: usize)
    requires
        ids@.len() == counts@.len(),
        ids@.no_duplicates(),
        skip matches Some(k) ==> k < ids@.len() && ids@.len() >= 2,
        skip is None ==> ids@.len() >= 1,
    ensures
        r < ids@.len(),
        skip != Some(r),
        forall|j: int|
            0 <= j < ids@.len() && j != r && skip != Some(j as usize) ==> (counts@[r as int]
                > counts@[j] || (counts@[r as int] == counts@[j] && ids@[r as int] < ids@[j])),
{
    let n = ids.len();
    let mut best: usize = match skip {
        Some(k) => if k == 0 {
            1
        } else {
            0
        },
        None => 0,
    };
    let mut i: usize = 0;
    while i < n
        invariant
            n == ids@.len(),
            n == counts@.len(),
            ids@.no_duplicates(),
            best < n,
            skip != Some(best),
            i <= n,
            forall|j: int|
                0 <= j < i && j != best && skip != Some(j as usize) ==> (counts@[best as int]
                    > counts@[j] || (counts@[best as int] == counts@[j] && ids@[best as int]
                    < ids@[j])),
        decreases n - i,
    {
        if skip != Some(i) && i != best {
            let better = counts[i] > counts[best] || (counts[i] == counts[best] && ids[i]
                < ids[best]);
            if better {
                proof {
                    assert(ids@[i as int] != ids@[best as int]);
                }
                best = i;
            } else {
                proof {
                    assert(ids@[i as int] != ids@[best as int]);
                }
            }
        }
        i = i + 1;
    }
    best
}

/// The two instances compared: the one with the most samples and the next
/// one (smallest id first among equals), or the number of instances when
/// there are fewer than two.
fn pick_senders(snaps: &[Snapshot]) -> (r: Result<(u128, u128), usize>)
    ensures
        senders(snaps@).finite(),
        match r {
            Err(n) => senders(snaps@).len() < 2 && n == senders(snaps@).len(),
            Ok((a, b)) => senders(snaps@).len() >= 2 && a == first_sender(snaps@) && b
                == second_sender(snaps@),
        },
{
    let (ids, counts) = count_senders(snaps);
    proof {
        assert(senders(snaps@) == ids@.to_set());
        ids@.unique_seq_to_set();
    }
    if ids.len() < 2 {
        return Err(ids.len());
    }
    let ia = best_ranked(&ids, &counts, None);
    let ib = best_ranked(&ids, &counts, Some(ia));
    let a = ids[ia];
    let b = ids[ib];
    proof {
        assert(has_sender(snaps@, a)) by {
            assert(ids@.contains(a));
        }
        assert(has_sender(snaps@, b)) by {
            assert(ids@.contains(b));
        }
        assert forall|s: u128| #[trigger] has_sender(snaps@, s) && s != a implies ranks_before(
            snaps@,
            a,
            s,
        ) by {
            assert(ids@.contains(s));
            let j = choose|j: int| 0 <= j < ids@.len() && ids@[j] == s;
            assert(counts@[j] == sender_count(snaps@, ids@[j]));
            assert(counts@[ia as int] == sender_count(snaps@, ids@[ia as int]));
        }
        assert(is_first_sender(snaps@, a));
        assert(ids@[ia as int] != ids@[ib as int]);
        assert forall|s: u128| #[trigger] has_sender(snaps@, s) && s != a && s != b implies ranks_before(
            snaps@,
            b,
            s,
        ) by {
            assert(ids@.contains(s));
            let j = choose|j: int| 0 <= j < ids@.len() && ids@[j] == s;
            assert(counts@[j] == sender_count(snaps@, ids@[j]));
            assert(counts@[ib as int] == sender_count(snaps@, ids@[ib as int]));
        }
        assert(is_second_sender(snaps@, a, b));
        lemma_second_unique(snaps@, a, b);
        lemma_first_unique(snaps@, a);
    }
    Ok((a, b))
}

/// Whether every aligned pair of the two compared instances has ship and
/// station differences that fit in `i64` (the precondition of `compute_divergence`).
pub fn deltas_fit_check(snaps: &[Snapshot]) -> (r: bool)
    ensures
        r == deltas_fit(snaps@),
{
    let (a, b) = match pick_senders(snaps) {
        Err(_) => {
            return true;
        },
        Ok(ab) => ab,
    };
    assert(senders(snaps@).len() >= 2 && a == first_sender(snaps@) && b == second_sender(snaps@));
    let rows = aligned_rows(snaps, a, b);
    let n = rows.len();
    for i in 0..n
        invariant
            n == rows@.len(),
            rows_correct(snaps@, a, b, rows@),
            senders(snaps@).len() >= 2 && a == first_sender(snaps@) && b == second_sender(snaps@),
            forall|k: int|
                0 <= k < i ==> delta_fits((#[trigger] rows@[k]).ships_a, rows@[k].ships_b)
                    && delta_fits(rows@[k].stations_a, rows@[k].stations_b),
    {
        let row = &rows[i];
        let fits = i64_sub_fits(row.ships_a, row.ships_b) && i64_sub_fits(
            row.stations_a,
            row.stations_b,
        );
        if !fits {
            proof {
                let q = rows@[i as int].snap_seq;
                assert(aligned(snaps@, a, b, q));
                assert(rows@[i as int] == aligned_row(snaps@, a, b, q));
                assert(senders(snaps@).len() >= 2);
                assert(aligned(snaps@, first_sender(snaps@), second_sender(snaps@), q));
            }
            return false;
        }
    }
    proof {
        assert forall|q: u64| #[trigger] aligned(snaps@, a, b, q) implies {
            let r = aligned_row(snaps@, a, b, q);
            delta_fits(r.ships_a, r.ships_b) && delta_fits(r.stations_a, r.stations_b)
        } by {
            let k = choose|k: int| 0 <= k < rows@.len() && (#[trigger] rows@[k]).snap_seq == q;
        }
    }
    true
}

fn i64_sub_fits(x: i64, y: i64) -> (r: bool)
    ensures
        r == delta_fits(x, y),
{
    let d = x as i128 - y as i128;
    d > i64::MIN as i128 && d <= i64::MAX as i128
}

/// Groups the samples by instance, picks the two instances with the most
/// samples (smallest id first among equals), aligns them by snapshot seq and
/// summarises how far their sector state drifted.
pub fn compute_divergence(snaps: &[Snapshot]) -> (r: Result<DivergenceReport, DivergenceError>)
    requires
        deltas_fit(snaps@),
    ensures
        senders(snaps@).finite(),
        match r {
            Err(DivergenceError::NotTwoSenders(n)) => senders(snaps@).len() < 2 && n
                == senders(snaps@).len(),
            Err(DivergenceError::NoOverlap) => senders(snaps@).len() >= 2 && forall|q: u64|
                !(#[trigger] aligned(snaps@, first_sender(snaps@), second_sender(snaps@), q)),
            Ok(rep) => {
                &&& senders(snaps@).len() >= 2
                &&& rep.sender_a == first_sender(snaps@)
                &&& rep.sender_b == second_sender(snaps@)
                &&& is_first_sender(snaps@, rep.sender_a)
                &&& is_second_sender(snaps@, rep.sender_a, rep.sender_b)
                &&& rows_correct(snaps@, rep.sender_a, rep.sender_b, rep.rows@)
                &&& rep.rows@.len() > 0
                &&& rep.max_ship_delta == max_ship_delta_of(rep.rows@)
                &&& rep.max_station_delta == max_station_delta_of(rep.rows@)
                &&& rep.any_sector_mismatch == any_sector_mismatch_of(rep.rows@)
            },
        },
{
    let (a, b) = match pick_senders(snaps) {
        Err(n) => {
            return Err(DivergenceError::NotTwoSenders(n));
        },
        Ok(ab) => ab,
    };
    proof {
        lemma_sender_choice(snaps@);
    }
    let rows = aligned_rows(snaps, a, b);
    if rows.len() == 0 {
        proof {
            assert forall|q: u64| !(#[trigger] aligned(snaps@, a, b, q)) by {
                if aligned(snaps@, a, b, q) {
                    let i = choose|i: int| 0 <= i < rows@.len() && (#[trigger] rows@[i]).snap_seq == q;
                }
            }
        }
        return Err(DivergenceError::NoOverlap);
    }
    proof {
        assert forall|i: int| 0 <= i < rows@.len() implies delta_fits(
            (#[trigger] rows@[i]).ships_a,
            rows@[i].ships_b,
        ) && delta_fits(rows@[i].stations_a, rows@[i].stations_b) by {
            assert(aligned(snaps@, a, b, rows@[i].snap_seq));
        }
    }
    let (max_ship_delta, max_station_delta, any_sector_mismatch) = max_deltas(&rows);
    Ok(DivergenceReport {
        sender_a: a,
        sender_b: b,
        rows,
        max_ship_delta,
        max_station_delta,
        any_sector_mismatch,
    })
}

// ---------------------------------------------------------------------------
// Samples from the log
// ---------------------------------------------------------------------------
/// `r` is the sample the log entry `env` carries, given the payload fields:
/// only `spike.worldsnap` entries with an integer `ships` are samples, and
/// missing fields default to seq 0, time 0.0 (bits 0), an empty sector and
/// -1 stations.
pub open spec fn is_sample_of(
    env: EventEnvelope,
    ships: Option<i64>,
    seq: Option<u64>,
    t_bits: Option<u64>,
    sector: Option<Seq<char>>,
    stations: Option<i64>,
    r: Option<Snapshot>,
) -> bool {
    &&& r is Some <==> (env.event_type@ == "spike.worldsnap"@ && ships is Some)
    &&& r matches Some(snap) ==> {
        &&& snap.sender == env.sender_id
        &&& snap.ships == ships->0
        &&& snap.snap_seq == (match seq {
            Some(v) => v,
            None => 0,
        })
        &&& snap.t_bits == (match t_bits {
            Some(v) => v,
            None => 0,
        })
        &&& snap.sector@ == (match sector {
            Some(v) => v,
            None => Seq::<char>::empty(),
        })
        &&& snap.stations == (match stations {
            Some(v) => v as int,
            None => -1int,
        })
    }
}

/// The fields of a `spike.worldsnap` payload, read from its JSON text.
pub fn worldsnap_fields(payload: &str) -> (r: WorldsnapFields)
    ensures
        r.ships == json_field_i64(payload@, "ships"@),
        r.seq == json_field_u64(payload@, "seq"@),
        r.t_bits == json_field_number_bits(payload@, "t"@),
        opt_text(r.sector) == json_field_str(payload@, "sector"@),
        r.stations == json_field_i64(payload@, "stations"@),
{
    let sector = match field_str(payload, "sector") {
        Ok(t) => t,
        Err(_) => None,
    };
    WorldsnapFields {
        ships: field_i64(payload, "ships"),
        seq: field_u64(payload, "seq"),
        t_bits: field_number_bits(payload, "t"),
        sector,
        stations: field_i64(payload, "stations"),
    }
}

impl Snapshot {
    /// The sample a log entry carries: only `spike.worldsnap` entries whose
    /// payload has an integer `ships` are samples (the started/stopped control
    /// messages have none). Missing fields default to seq 0, time 0.0, an empty
    /// sector and -1 stations.
    pub fn from_worldsnap(env: &EventEnvelope, fields: WorldsnapFields) -> (r: Option<Snapshot>)
        ensures
            is_sample_of(
                *env,
                fields.ships,
                fields.seq,
                fields.t_bits,
                opt_text(fields.sector),
                fields.stations,
                r,
            ),
    {
        if !eq_str(&env.event_type, "spike.worldsnap") {
            return None;
        }
        let ships = match fields.ships {
            Some(v) => v,
            None => {
                return None;
            },
        };
        let snap_seq = match fields.seq {
            Some(v) => v,
            None => 0,
        };
        let t_bits = match fields.t_bits {
            Some(v) => v,
            None => 0,
        };
        let sector = match fields.sector {
            Some(v) => v,
            None => String::new(),
        };
        let stations = match fields.stations {
            Some(v) => v,
            None => -1,
        };
        Some(Snapshot { sender: env.sender_id, snap_seq, t_bits, sector, ships, stations })
    }

    /// The sample a log entry carries, with the payload fields read from its
    /// JSON text (see `worldsnap_fields` and `from_worldsnap`).
    pub fn from_log_entry(env: &EventEnvelope) -> (r: Option<Snapshot>)
        ensures
            is_entry_sample(*env, r),
    {
        let fields = worldsnap_fields(env.payload.as_str());
        Snapshot::from_worldsnap(env, fields)
    }
}

/// The sample the log entry `env` carries (`r`), its payload read from the
/// entry's JSON text.
pub open spec fn is_entry_sample(env: EventEnvelope, r: Option<Snapshot>) -> bool {
    is_sample_of(
        env,
        json_field_i64(env.payload@, "ships"@),
        json_field_u64(env.payload@, "seq"@),
        json_field_number_bits(env.payload@, "t"@),
        json_field_str(env.payload@, "sector"@),
        json_field_i64(env.payload@, "stations"@),
        r,
    )
}

/// The log entry carries a sample: a `spike.worldsnap` with an integer `ships`.
pub open spec fn carries_sample(env: EventEnvelope) -> bool {
    env.event_type@ == "spike.worldsnap"@ && json_field_i64(env.payload@, "ships"@) is Some
}

/// `snaps` are the samples of the entries `envs`, one per entry that carries
/// one, in log order.
pub open spec fn samples_of(envs: Seq<EventEnvelope>, snaps: Seq<Snapshot>) -> bool
    decreases envs.len(),
{
    if envs.len() == 0 {
        snaps.len() == 0
    } else if carries_sample(envs.last()) {
        &&& snaps.len() > 0
        &&& is_entry_sample(envs.last(), Some(snaps.last()))
        &&& samples_of(envs.drop_last(), snaps.drop_last())
    } else {
        samples_of(envs.drop_last(), snaps)
    }
}

/// The world snapshot samples of a log's entries, in log order.
pub fn samples_of_log(envs: &Vec<EventEnvelope>) -> (r: Vec<Snapshot>)
    ensures
        samples_of(envs@, r@),
{
    let mut r: Vec<Snapshot> = Vec::new();
    let n = envs.len();
    for i in 0..n
        invariant
            n == envs@.len(),
            samples_of(envs@.take(i as int), r@),
    {
        let ghost before = r@;
        assert(envs@.take(i + 1).drop_last() == envs@.take(i as int));
        assert(envs@.take(i + 1).last() == envs@[i as int]);
        match Snapshot::from_log_entry(&envs[i]) {
            Some(s) => {
                r.push(s);
                assert(r@.drop_last() == before);
            },
            None => {},
        }
    }
    assert(envs@.take(n as int) == envs@);
    r
}

impl DivergenceError {
    /// The message shown for the error.
    pub fn describe(&self) -> (r: String)
        ensures
            r@ == match *self {
                DivergenceError::NotTwoSenders(n) => "expected worldsnap streams from exactly 2 instances, found "@
                    + crate::text::decimal(n as nat)
                    + " (run the snapshot toggle on both instances against the same server)"@,
                DivergenceError::NoOverlap => "the two instances share no snapshot seq to compare"@,
            },
    {
        match self {
            DivergenceError::NotTwoSenders(n) => {
                let mut r = string_of("expected worldsnap streams from exactly 2 instances, found ");
                push_decimal(&mut r, *n as u64);
                crate::text::push_str(
                    &mut r,
                    " (run the snapshot toggle on both instances against the same server)",
                );
                r
            },
            DivergenceError::NoOverlap => string_of("the two instances share no snapshot seq to compare"),
        }
    }
}

} // verus!
