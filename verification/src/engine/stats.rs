//! Counters of one pass, and the report on them.

use crate::engine::record::{field_of, Record, RecordView};
use crate::json::{leaf_text, Json};
use crate::text::{append_chars, chars_of, decimal, pad_left, push_decimal, push_padded, string_of};
use vstd::prelude::*;

verus! {

/// How often one value was seen.
pub ghost struct Tally {
    pub value: Seq<char>,
    pub count: nat,
}

/// The counters of a pass: lines seen, lines matched, and how often each
/// value of the observed field occurred, in the order of first occurrence.
#[derive(Debug)]
pub struct Stats {
    /// Records read.
    pub seen: usize,
    /// Records that passed the filter.
    pub matched: usize,
    /// The values of the observed field, in the order of first occurrence.
    pub values: Vec<String>,
    /// How often each of `values` occurred.
    pub counts: Vec<usize>,
}

/// No value occurs twice.
pub open spec fn distinct(t: Seq<Tally>) -> bool {
    forall|i: int, j: int| 0 <= i < j < t.len() ==> t[i].value != t[j].value
}

/// Every value was seen at least once.
pub open spec fn positive(t: Seq<Tally>) -> bool {
    forall|i: int| 0 <= i < t.len() ==> (#[trigger] t[i]).count >= 1
}

/// The tallies after one more occurrence of `value`: its count goes up by
/// one where it is known, else it joins at the end with a count of one.
pub open spec fn bumped(t: Seq<Tally>, value: Seq<char>) -> Seq<Tally>
    decreases t.len(),
{
    if t.len() == 0 {
        seq![Tally { value, count: 1 }]
    } else if t[0].value == value {
        seq![Tally { value, count: t[0].count + 1 }] + t.skip(1)
    } else {
        seq![t[0]] + bumped(t.skip(1), value)
    }
}

/// The tallies after `rec` was observed for `field`: the text of the field
/// is counted where a field is named and the record has it.
pub open spec fn observed(t: Seq<Tally>, rec: RecordView, field: Option<Seq<char>>) -> Seq<Tally> {
    match field {
        Some(path) => match field_of(rec, path) {
            Some(v) => bumped(t, leaf_text(v)),
            None => t,
        },
        None => t,
    }
}

/// `ranked`, which is ordered by falling count, with `t` put in behind every
/// entry that counts at least as much.
pub open spec fn placed(ranked: Seq<Tally>, t: Tally) -> Seq<Tally>
    decreases ranked.len(),
{
    if ranked.len() > 0 && ranked.last().count < t.count {
        placed(ranked.drop_last(), t).push(ranked.last())
    } else {
        ranked.push(t)
    }
}

/// The tallies by falling count; among equal counts the one seen first
/// comes first.
pub open spec fn ranked(t: Seq<Tally>) -> Seq<Tally>
    decreases t.len(),
{
    if t.len() == 0 {
        Seq::<Tally>::empty()
    } else {
        placed(ranked(t.drop_last()), t.last())
    }
}

/// The first `limit` of the ranked tallies, or all of them where there are
/// fewer.
pub open spec fn leading(t: Seq<Tally>, limit: nat) -> Seq<Tally> {
    let r = ranked(t);
    if r.len() <= limit {
        r
    } else {
        r.take(limit as int)
    }
}

/// One line of the table of values: the count, right-aligned in six
/// columns between two pairs of spaces, then the value.
pub open spec fn row(t: Tally) -> Seq<char> {
    "  "@ + pad_left(decimal(t.count), 6) + "  "@ + t.value + seq!['\n']
}

/// The lines of the table, one per tally.
pub open spec fn rows(t: Seq<Tally>) -> Seq<char>
    decreases t.len(),
{
    if t.len() == 0 {
        Seq::<char>::empty()
    } else {
        rows(t.drop_last()) + row(t.last())
    }
}

/// How many values the table holds at most.
pub const TOP_VALUES: usize = 20;

/// The report: the two counters, and where a field is named the table of
/// its most frequent values.
pub open spec fn report(seen: nat, matched: nat, t: Seq<Tally>, field: Option<Seq<char>>) -> Seq<
    char,
> {
    "seen: "@ + decimal(seen) + seq!['\n'] + "matched: "@ + decimal(matched) + seq!['\n']
        + match field {
        Some(name) => "top values for field '"@ + name + "':\n"@ + rows(
            leading(t, TOP_VALUES as nat),
        ),
        None => Seq::<char>::empty(),
    }
}

/// The name that an optional borrowed string holds.
pub open spec fn name_of(field: Option<&str>) -> Option<Seq<char>> {
    match field {
        Some(f) => Some(f@),
        None => None,
    }
}

/// Where `value` is first found at `i`, bumping raises the count there.
pub proof fn lemma_bumped_known(t: Seq<Tally>, value: Seq<char>, i: int)
    requires
        0 <= i < t.len(),
        t[i].value == value,
        forall|k: int| 0 <= k < i ==> t[k].value != value,
    ensures
        bumped(t, value) == t.update(i, Tally { value, count: t[i].count + 1 }),
    decreases t.len(),
{
    let raised = Tally { value, count: t[i].count + 1 };
    if i == 0 {
        assert(seq![raised] + t.skip(1) =~= t.update(0, raised));
    } else {
        lemma_bumped_known(t.skip(1), value, i - 1);
        assert(seq![t[0]] + t.skip(1).update(i - 1, raised) =~= t.update(i, raised));
    }
}

/// Where `value` is not found, bumping adds it at the end.
pub proof fn lemma_bumped_new(t: Seq<Tally>, value: Seq<char>)
    requires
        forall|k: int| 0 <= k < t.len() ==> t[k].value != value,
    ensures
        bumped(t, value) == t.push(Tally { value, count: 1 }),
    decreases t.len(),
{
    if t.len() == 0 {
        assert(seq![Tally { value, count: 1 }] =~= t.push(Tally { value, count: 1 }));
    } else {
        lemma_bumped_new(t.skip(1), value);
        assert(seq![t[0]] + t.skip(1).push(Tally { value, count: 1 }) =~= t.push(
            Tally { value, count: 1 },
        ));
    }
}

/// Putting `t` into `ranked` at `p` is what `placed` does, where `p` is
/// the end of the entries that count at least as much as `t`.
proof fn lemma_placed_at(ranked: Seq<Tally>, t: Tally, p: int)
    requires
        0 <= p <= ranked.len(),
        forall|k: int| p <= k < ranked.len() ==> ranked[k].count < t.count,
        p > 0 ==> ranked[p - 1].count >= t.count,
    ensures
        placed(ranked, t) == ranked.insert(p, t),
    decreases ranked.len() - p,
{
    if p == ranked.len() {
        assert(ranked.insert(p, t) =~= ranked.push(t));
    } else {
        lemma_placed_at(ranked.drop_last(), t, p);
        assert(ranked.drop_last().insert(p, t).push(ranked.last()) =~= ranked.insert(p, t));
    }
}

/// The ranking holds every tally once and is ordered by falling count.
pub proof fn lemma_ranked_sorted(t: Seq<Tally>)
    ensures
        ranked(t).len() == t.len(),
        ranked(t).to_multiset() == t.to_multiset(),
        forall|i: int, j: int| 0 <= i < j < t.len() ==> ranked(t)[i].count >= ranked(t)[j].count,
    decreases t.len(),
{
    broadcast use vstd::seq_lib::group_to_multiset_ensures;

    if t.len() > 0 {
        lemma_ranked_sorted(t.drop_last());
        lemma_placed_sorted(ranked(t.drop_last()), t.last());
        assert(t.drop_last().push(t.last()) == t);
    }
}

/// Placing keeps the order and adds exactly the one tally.
proof fn lemma_placed_sorted(r: Seq<Tally>, t: Tally)
    requires
        forall|i: int, j: int| 0 <= i < j < r.len() ==> r[i].count >= r[j].count,
    ensures
        placed(r, t).len() == r.len() + 1,
        placed(r, t).to_multiset() == r.push(t).to_multiset(),
        forall|i: int, j: int|
            0 <= i < j < r.len() + 1 ==> placed(r, t)[i].count >= placed(r, t)[j].count,
        r.len() > 0 ==> placed(r, t)[0].count >= r[0].count,
        placed(r, t)[0].count >= t.count,
    decreases r.len(),
{
    broadcast use vstd::seq_lib::group_to_multiset_ensures;

    if r.len() > 0 && r.last().count < t.count {
        let rest = r.drop_last();
        lemma_placed_sorted(rest, t);
        let p = placed(rest, t);
        assert(r == rest.push(r.last()));
        assert(rest.push(t).push(r.last()).to_multiset() == rest.push(r.last()).push(
            t,
        ).to_multiset()) by {
            assert(rest.push(t).push(r.last()).to_multiset() =~= rest.to_multiset().insert(
                t,
            ).insert(r.last()));
            assert(rest.push(r.last()).push(t).to_multiset() =~= rest.to_multiset().insert(
                r.last(),
            ).insert(t));
        }
        assert forall|i: int, j: int| 0 <= i < j < r.len() + 1 implies placed(r, t)[i].count
            >= placed(r, t)[j].count by {
            if j == r.len() {
                lemma_placed_floor(rest, t, r.last().count, i);
            }
        }
    }
}

/// Every entry of `placed(r, t)` counts at least `floor` where `t` and
/// every entry of `r` do.
proof fn lemma_placed_floor(r: Seq<Tally>, t: Tally, floor: nat, i: int)
    requires
        0 <= i < r.len() + 1,
        t.count >= floor,
        forall|k: int| 0 <= k < r.len() ==> r[k].count >= floor,
    ensures
        placed(r, t).len() == r.len() + 1,
        placed(r, t)[i].count >= floor,
    decreases r.len(),
{
    if r.len() > 0 && r.last().count < t.count {
        if i < r.len() {
            lemma_placed_floor(r.drop_last(), t, floor, i);
        } else {
            lemma_placed_floor(r.drop_last(), t, floor, 0);
        }
    }
}

/// Where `placed` puts `t`: behind the last entry that counts at least as
/// much.
pub open spec fn slot(ranked: Seq<Tally>, t: Tally) -> int
    decreases ranked.len(),
{
    if ranked.len() > 0 && ranked.last().count < t.count {
        slot(ranked.drop_last(), t)
    } else {
        ranked.len() as int
    }
}

/// `placed` inserts at `slot`, and every entry from there on counts less.
proof fn lemma_placed_slot(r: Seq<Tally>, t: Tally)
    ensures
        0 <= slot(r, t) <= r.len(),
        placed(r, t) == r.insert(slot(r, t), t),
        forall|k: int| slot(r, t) <= k < r.len() ==> r[k].count < t.count,
    decreases r.len(),
{
    if r.len() > 0 && r.last().count < t.count {
        lemma_placed_slot(r.drop_last(), t);
        let q = slot(r.drop_last(), t);
        assert(r.drop_last().insert(q, t).push(r.last()) =~= r.insert(q, t));
        assert forall|k: int| q <= k < r.len() implies r[k].count < t.count by {
            if k < r.len() - 1 {
                assert(r.drop_last()[k] == r[k]);
            }
        }
    } else {
        assert(r.insert(r.len() as int, t) =~= r.push(t));
    }
}

/// Every tally is somewhere in the ranking.
pub proof fn lemma_ranked_member(t: Seq<Tally>, i: int)
    requires
        0 <= i < t.len(),
    ensures
        exists|a: int| 0 <= a < t.len() && ranked(t)[a] == t[i],
    decreases t.len(),
{
    let shorter = t.drop_last();
    let r = ranked(shorter);
    lemma_ranked_sorted(shorter);
    lemma_placed_slot(r, t.last());
    let q = slot(r, t.last());
    if i == t.len() - 1 {
        assert(ranked(t)[q] == t[i]);
    } else {
        lemma_ranked_member(shorter, i);
        let a = choose|a: int| 0 <= a < shorter.len() && r[a] == shorter[i];
        if a < q {
            assert(ranked(t)[a] == t[i]);
        } else {
            assert(ranked(t)[a + 1] == t[i]);
        }
    }
}

/// The ranking is stable: of two tallies the one held first comes first
/// unless the other counts more.
pub proof fn lemma_ranked_stable(t: Seq<Tally>, i: int, j: int)
    requires
        0 <= i < j < t.len(),
        t[i].count >= t[j].count,
    ensures
        exists|a: int, b: int| 0 <= a < b < t.len() && ranked(t)[a] == t[i] && ranked(t)[b] == t[j],
    decreases t.len(),
{
    let shorter = t.drop_last();
    let r = ranked(shorter);
    lemma_ranked_sorted(shorter);
    lemma_placed_slot(r, t.last());
    let q = slot(r, t.last());
    if j == t.len() - 1 {
        lemma_ranked_member(shorter, i);
        let a = choose|a: int| 0 <= a < shorter.len() && r[a] == shorter[i];
        assert(a < q);
        assert(ranked(t)[a] == t[i] && ranked(t)[q] == t[j]);
    } else {
        lemma_ranked_stable(shorter, i, j);
        let (a, b) = choose|a: int, b: int|
            0 <= a < b < shorter.len() && r[a] == shorter[i] && r[b] == shorter[j];
        let a2 = if a < q {
            a
        } else {
            a + 1
        };
        let b2 = if b < q {
            b
        } else {
            b + 1
        };
        assert(ranked(t)[a2] == t[i] && ranked(t)[b2] == t[j]);
    }
}

impl Default for Stats {
    fn default() -> (r: Stats)
        ensures
            r.seen == 0,
            r.matched == 0,
            r.tallies() == Seq::<Tally>::empty(),
            r.wf(),
    {
        let r = Stats { seen: 0, matched: 0, values: Vec::new(), counts: Vec::new() };
        assert(r.tallies() =~= Seq::<Tally>::empty());
        r
    }
}

impl Stats {
    /// The tallies, in the order in which the values were first seen.
    pub open spec fn tallies(&self) -> Seq<Tally> {
        Seq::new(
            self.values.len() as nat,
            |i: int| Tally { value: self.values[i]@, count: self.counts[i] as nat },
        )
    }

    /// Every value has its count.
    pub open spec fn paired(&self) -> bool {
        self.values.len() == self.counts.len()
    }

    /// The counters are well formed: no value is held twice, and every
    /// value held was seen.
    pub open spec fn wf(&self) -> bool {
        &&& self.paired()
        &&& distinct(self.tallies())
        &&& positive(self.tallies())
    }

    /// Every count can still grow within the machine word.
    pub open spec fn has_room(&self) -> bool {
        forall|i: int| 0 <= i < self.tallies().len() ==> (#[trigger] self.tallies()[i]).count
            < usize::MAX
    }

    /// Every count is at most `bound`.
    pub open spec fn counts_within(&self, bound: nat) -> bool {
        forall|i: int| 0 <= i < self.tallies().len() ==> (#[trigger] self.tallies()[i]).count
            <= bound
    }

    /// Counts one matching record: where `field` names a field that the
    /// record has, the text of that field is counted once more.
    pub fn observe(&mut self, rec: &Record, field: Option<&str>)
        requires
            old(self).wf(),
            old(self).has_room(),
        ensures
            final(self).wf(),
            final(self).seen == old(self).seen,
            final(self).matched == old(self).matched,
            final(self).tallies() == observed(old(self).tallies(), rec@, name_of(field)),
    {
        if let Some(f) = field {
            if let Some(v) = rec.get_field(f) {
                self.bump(v);
            }
        }
    }

    fn bump(&mut self, v: &Json)
        requires
            old(self).wf(),
            old(self).has_room(),
        ensures
            final(self).wf(),
            final(self).seen == old(self).seen,
            final(self).matched == old(self).matched,
            final(self).tallies() == bumped(old(self).tallies(), leaf_text(v@)),
    {
        let key = v.leaf_text();
        let ghost before = self.tallies();
        let n = self.values.len();
        let mut i: usize = 0;
        while i < n
            invariant
                i <= n,
                n == self.values.len(),
                self.paired(),
                self.tallies() == before,
                before == old(self).tallies(),
                key@ == leaf_text(v@),
                self.seen == old(self).seen,
                self.matched == old(self).matched,
                distinct(before),
                positive(before),
                forall|k: int| 0 <= k < before.len() ==> (#[trigger] before[k]).count < usize::MAX,
                forall|k: int| 0 <= k < i ==> before[k].value != key@,
            decreases n - i,
        {
            assert(before[i as int].value == self.values[i as int]@);
            if self.values[i] == key {
                let c = self.counts[i];
                assert(before[i as int].count == c);
                assert(c < usize::MAX);
                self.counts.set(i, c + 1);
                proof {
                    let raised = Tally { value: key@, count: before[i as int].count + 1 };
                    lemma_bumped_known(before, key@, i as int);
                    assert(self.tallies() =~= before.update(i as int, raised));
                }
                return ;
            }
            i += 1;
        }
        self.values.push(key);
        self.counts.push(1);
        proof {
            lemma_bumped_new(before, key@);
            assert(self.tallies() =~= before.push(Tally { value: key@, count: 1 }));
        }
    }

    /// The positions of the tallies, ranked.
    fn rank(&self) -> (order: Vec<usize>)
        requires
            self.paired(),
        ensures
            order.len() == self.tallies().len(),
            forall|k: int| 0 <= k < order.len() ==> order[k] < self.tallies().len(),
            Seq::new(order.len() as nat, |k: int| self.tallies()[order[k] as int]) == ranked(
                self.tallies(),
            ),
    {
        let ghost t = self.tallies();
        let n = self.values.len();
        let mut order: Vec<usize> = Vec::new();
        let mut i: usize = 0;
        assert(t.take(0) =~= Seq::<Tally>::empty());
        assert(Seq::new(0nat, |k: int| t[order[k] as int]) =~= ranked(t.take(0)));
        while i < n
            invariant
                i <= n,
                n == self.values.len(),
                self.paired(),
                t == self.tallies(),
                order.len() == i,
                forall|k: int| 0 <= k < order.len() ==> order[k] < i,
                Seq::new(order.len() as nat, |k: int| t[order[k] as int]) == ranked(
                    t.take(i as int),
                ),
            decreases n - i,
        {
            let c = self.counts[i];
            let ghost held = order@;
            let ghost picked = Seq::new(held.len(), |k: int| t[held[k] as int]);
            let mut p: usize = order.len();
            while p > 0 && self.counts[order[p - 1]] < c
                invariant
                    p <= order.len(),
                    order@ == held,
                    n == self.values.len(),
                    self.paired(),
                    t == self.tallies(),
                    i < n,
                    c == self.counts[i as int],
                    forall|k: int| 0 <= k < held.len() ==> held[k] < i,
                    picked == Seq::new(held.len(), |k: int| t[held[k] as int]),
                    forall|k: int| p <= k < held.len() ==> picked[k].count < c,
                decreases p,
            {
                p -= 1;
            }
            order.insert(p, i);
            proof {
                assert(t[i as int].count == c);
                if p > 0 {
                    assert(picked[p - 1].count >= c);
                }
                lemma_placed_at(picked, t[i as int], p as int);
                assert(t.take(i + 1).drop_last() =~= t.take(i as int));
                assert(t.take(i + 1).last() == t[i as int]);
                assert(Seq::new(order.len() as nat, |k: int| t[order[k] as int]) =~= picked.insert(
                    p as int,
                    t[i as int],
                ));
            }
            i += 1;
        }
        assert(t.take(n as int) =~= t);
        order
    }

    /// Appends the table line of the tally at `at` to `out`.
    fn push_row(&self, out: &mut Vec<char>, at: usize)
        requires
            self.paired(),
            at < self.tallies().len(),
        ensures
            final(out)@ == old(out)@ + row(self.tallies()[at as int]),
    {
        let ghost t = self.tallies()[at as int];
        let two = chars_of("  ");
        append_chars(out, &two);
        let mut digits: Vec<char> = Vec::new();
        push_decimal(&mut digits, self.counts[at]);
        assert(digits@ =~= decimal(t.count));
        push_padded(out, &digits, 6);
        append_chars(out, &two);
        let value = chars_of(self.values[at].as_str());
        append_chars(out, &value);
        out.push('\n');
        assert(out@ =~= old(out)@ + row(t));
    }

    /// The report on the counters: how many records were seen and how many
    /// matched, one line each; where a field is named, a heading and the
    /// table of its most frequent values.
    pub fn print(&self, field: Option<&str>) -> (r: String)
        requires
            self.wf(),
        ensures
            r@ == report(self.seen as nat, self.matched as nat, self.tallies(), name_of(field)),
    {
        let mut out: Vec<char> = Vec::new();
        let seen = chars_of("seen: ");
        append_chars(&mut out, &seen);
        push_decimal(&mut out, self.seen);
        out.push('\n');
        let matched = chars_of("matched: ");
        append_chars(&mut out, &matched);
        push_decimal(&mut out, self.matched);
        out.push('\n');
        let ghost head = "seen: "@ + decimal(self.seen as nat) + seq!['\n'] + "matched: "@
            + decimal(self.matched as nat) + seq!['\n'];
        assert(out@ =~= head);
        if let Some(f) = field {
            let open = chars_of("top values for field '");
            append_chars(&mut out, &open);
            let name = chars_of(f);
            append_chars(&mut out, &name);
            let close = chars_of("':\n");
            append_chars(&mut out, &close);
            let ghost title = "top values for field '"@ + f@ + "':\n"@;
            assert(out@ =~= head + title);
            let order = self.rank();
            let ghost all = ranked(self.tallies());
            let shown: usize = if order.len() <= TOP_VALUES {
                order.len()
            } else {
                TOP_VALUES
            };
            let ghost top = leading(self.tallies(), TOP_VALUES as nat);
            assert(top =~= all.take(shown as int));
            let mut k: usize = 0;
            assert(all.take(0) =~= Seq::<Tally>::empty());
            while k < shown
                invariant
                    k <= shown <= order.len(),
                    self.paired(),
                    order.len() == self.tallies().len(),
                    forall|q: int| 0 <= q < order.len() ==> order[q] < self.tallies().len(),
                    Seq::new(order.len() as nat, |q: int| self.tallies()[order[q] as int]) == all,
                    out@ == head + title + rows(all.take(k as int)),
                decreases shown - k,
            {
                let ghost before = out@;
                self.push_row(&mut out, order[k]);
                proof {
                    assert(all[k as int] == self.tallies()[order[k as int] as int]);
                    assert(all.take(k + 1).drop_last() =~= all.take(k as int));
                    assert(all.take(k + 1).last() == all[k as int]);
                    assert(out@ =~= head + title + rows(all.take(k + 1)));
                }
                k += 1;
            }
            assert(out@ =~= head + (title + rows(top)));
        } else {
            assert(out@ =~= head + Seq::<char>::empty());
        }
        string_of(&out)
    }
}

} // verus!
