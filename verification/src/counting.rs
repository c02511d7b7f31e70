//! Sums, and lists in which an entry is found by its key: an entry is made when its key is first
//! seen, and stays where it is.

use vstd::prelude::*;

verus! {

/// The sum of `s`.
pub open spec fn total(s: Seq<int>) -> int
    decreases s.len(),
{
    if s.len() == 0 {
        0
    } else {
        total(s.drop_last()) + s.last()
    }
}

pub proof fn lemma_total_push(s: Seq<int>, x: int)
    ensures
        total(s.push(x)) == total(s) + x,
{
    assert(s.push(x).drop_last() =~= s);
}

pub proof fn lemma_total_update(s: Seq<int>, i: int, x: int)
    requires
        0 <= i < s.len(),
    ensures
        total(s.update(i, x)) == total(s) - s[i] + x,
    decreases s.len(),
{
    let t = s.update(i, x);
    if i == s.len() - 1 {
        assert(t.drop_last() =~= s.drop_last());
    } else {
        assert(t.drop_last() =~= s.drop_last().update(i, x));
        lemma_total_update(s.drop_last(), i, x);
    }
}

/// No number of a list without negative numbers exceeds its sum.
pub proof fn lemma_total_bounds(s: Seq<int>)
    requires
        forall|i: int| 0 <= i < s.len() ==> 0 <= #[trigger] s[i],
    ensures
        0 <= total(s),
        forall|i: int| 0 <= i < s.len() ==> #[trigger] s[i] <= total(s),
    decreases s.len(),
{
    if s.len() > 0 {
        let t = s.drop_last();
        lemma_total_bounds(t);
        assert forall|i: int| 0 <= i < s.len() implies #[trigger] s[i] <= total(s) by {
            if i < s.len() - 1 {
                assert(s[i] == t[i]);
            }
        }
    }
}

pub proof fn lemma_total_remove(s: Seq<int>, i: int)
    requires
        0 <= i < s.len(),
    ensures
        total(s.remove(i)) == total(s) - s[i],
    decreases s.len(),
{
    if i == s.len() - 1 {
        assert(s.remove(i) =~= s.drop_last());
    } else {
        assert(s.remove(i).drop_last() =~= s.drop_last().remove(i));
        assert(s.remove(i).last() == s.last());
        lemma_total_remove(s.drop_last(), i);
    }
}

/// The position of the first entry of `keys` that is `k`, or the length of `keys`.
pub open spec fn place(keys: Seq<Seq<char>>, k: Seq<char>) -> int
    decreases keys.len(),
{
    if keys.len() == 0 || keys[0] == k {
        0
    } else {
        1 + place(keys.drop_first(), k)
    }
}

pub proof fn lemma_place(keys: Seq<Seq<char>>, k: Seq<char>)
    ensures
        0 <= place(keys, k) <= keys.len(),
        place(keys, k) < keys.len() ==> keys[place(keys, k)] == k,
        forall|i: int| 0 <= i < place(keys, k) ==> #[trigger] keys[i] != k,
        place(keys, k) < keys.len() <==> keys.contains(k),
    decreases keys.len(),
{
    if keys.len() > 0 && keys[0] != k {
        let rest = keys.drop_first();
        lemma_place(rest, k);
        assert forall|i: int| 0 <= i < place(keys, k) implies #[trigger] keys[i] != k by {
            if i > 0 {
                assert(keys[i] == rest[i - 1]);
            }
        }
    }
    if keys.contains(k) {
        let i = choose|i: int| 0 <= i < keys.len() && keys[i] == k;
        if place(keys, k) == keys.len() {
            assert(keys[i] != k);
        }
    }
}

pub proof fn lemma_place_is(keys: Seq<Seq<char>>, k: Seq<char>, i: int)
    requires
        0 <= i <= keys.len(),
        i < keys.len() ==> keys[i] == k,
        forall|j: int| 0 <= j < i ==> #[trigger] keys[j] != k,
    ensures
        place(keys, k) == i,
{
    lemma_place(keys, k);
}

/// How often a command occurred.
#[derive(Debug)]
pub struct CommandCount {
    pub command: String,
    pub count: usize,
}

impl View for CommandCount {
    type V = (Seq<char>, int);

    open spec fn view(&self) -> (Seq<char>, int) {
        (self.command@, self.count as int)
    }
}

/// What a list of counts holds: commands in the order in which they were first seen, each with how
/// often it was.
pub open spec fn count_views(c: Seq<CommandCount>) -> Seq<(Seq<char>, int)> {
    c.map_values(|e: CommandCount| e@)
}

/// The commands that are counted.
pub open spec fn count_keys(c: Seq<(Seq<char>, int)>) -> Seq<Seq<char>> {
    c.map_values(|e: (Seq<char>, int)| e.0)
}

/// How often the commands occurred.
pub open spec fn count_values(c: Seq<(Seq<char>, int)>) -> Seq<int> {
    c.map_values(|e: (Seq<char>, int)| e.1)
}

/// The counts after one more `k`.
pub open spec fn counted(c: Seq<(Seq<char>, int)>, k: Seq<char>) -> Seq<(Seq<char>, int)> {
    let p = place(count_keys(c), k);
    if p < c.len() {
        c.update(p, (k, c[p].1 + 1))
    } else {
        c.push((k, 1))
    }
}

/// Every command is counted once, and was seen.
pub open spec fn counts_consistent(c: Seq<(Seq<char>, int)>) -> bool {
    &&& count_keys(c).no_duplicates()
    &&& forall|i: int| 0 <= i < c.len() ==> 1 <= (#[trigger] c[i]).1
}

/// Counting one more command keeps the counts consistent and adds one to their sum.
pub proof fn lemma_counted(c: Seq<(Seq<char>, int)>, k: Seq<char>)
    requires
        counts_consistent(c),
    ensures
        counts_consistent(counted(c, k)),
        total(count_values(counted(c, k))) == total(count_values(c)) + 1,
        counted(c, k).len() > 0,
{
    let p = place(count_keys(c), k);
    let d = counted(c, k);
    lemma_place(count_keys(c), k);
    if p < c.len() {
        assert(count_keys(c)[p] == c[p].0);
        assert(count_keys(d) =~= count_keys(c));
        assert(count_values(d) =~= count_values(c).update(p, c[p].1 + 1));
        lemma_total_update(count_values(c), p, c[p].1 + 1);
    } else {
        assert(count_keys(d) =~= count_keys(c).push(k));
        assert(count_values(d) =~= count_values(c).push(1));
        lemma_total_push(count_values(c), 1);
        assert forall|i: int, j: int|
            0 <= i < count_keys(d).len() && 0 <= j < count_keys(d).len() && i
                != j implies count_keys(d)[i] != count_keys(d)[j] by {
            if i < c.len() {
                assert(count_keys(c)[i] == count_keys(d)[i]);
            }
            if j < c.len() {
                assert(count_keys(c)[j] == count_keys(d)[j]);
            }
        }
    }
}

/// How often `k` was counted.
pub open spec fn count_of(c: Seq<(Seq<char>, int)>, k: Seq<char>) -> int {
    let p = place(count_keys(c), k);
    if p < c.len() {
        c[p].1
    } else {
        0
    }
}

/// Counting one more `k` raises the count of `k` by one and leaves the others.
pub proof fn lemma_count_of_counted(c: Seq<(Seq<char>, int)>, k: Seq<char>, other: Seq<char>)
    ensures
        count_of(counted(c, k), other) == count_of(c, other) + if other == k {
            1int
        } else {
            0
        },
{
    let p = place(count_keys(c), k);
    let d = counted(c, k);
    lemma_place(count_keys(c), k);
    lemma_place(count_keys(c), other);
    let q = place(count_keys(c), other);
    if p < c.len() {
        assert(count_keys(c)[p] == c[p].0);
        assert(count_keys(d) =~= count_keys(c));
    } else {
        assert(count_keys(d) =~= count_keys(c).push(k));
        if q < c.len() {
            lemma_place_is(count_keys(d), other, q);
        } else if other == k {
            lemma_place_is(count_keys(d), other, c.len() as int);
        } else {
            lemma_place_is(count_keys(d), other, c.len() as int + 1);
        }
    }
}

/// Counts one more `command`.
pub fn count_command(counts: &mut Vec<CommandCount>, command: String)
    requires
        total(count_values(count_views(old(counts)@))) < usize::MAX,
        counts_consistent(count_views(old(counts)@)),
    ensures
        count_views(final(counts)@) == counted(count_views(old(counts)@), command@),
        counts_consistent(count_views(final(counts)@)),
{
    let ghost before = count_views(counts@);
    let mut i: usize = 0;
    while i < counts.len() && counts[i].command != command
        invariant
            i <= counts@.len(),
            before == count_views(counts@),
            forall|j: int| 0 <= j < i ==> #[trigger] count_keys(before)[j] != command@,
        decreases counts@.len() - i,
    {
        assert(count_keys(before)[i as int] == counts@[i as int].command@);
        i = i + 1;
    }
    proof {
        if i < counts@.len() {
            assert(count_keys(before)[i as int] == counts@[i as int].command@);
            assert(count_values(before)[i as int] == counts@[i as int].count);
        }
        lemma_place_is(count_keys(before), command@, i as int);
        lemma_total_bounds(count_values(before));
        lemma_counted(before, command@);
    }
    if i < counts.len() {
        let entry = &mut counts[i];
        entry.count = entry.count + 1;
    } else {
        counts.push(CommandCount { command, count: 1 });
    }
    assert(count_views(counts@) =~= counted(before, command@));
}

} // verus!
