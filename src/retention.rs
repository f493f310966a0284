//! Which snapshots belong to a filesystem under a run's naming scheme, their
//! order by age, which of them may go, and whether a new one is due.
use crate::text::{seq_less, starts_with, str_less};
use crate::zfs::{snapshot_name, Zfs, FS};
use vstd::prelude::*;
use vstd::seq_lib::{group_to_multiset_ensures, to_multiset_insert};

verus! {

/// `a` is strictly older than `b`: created earlier, or at the same time with
/// a name that sorts first.
pub open spec fn older(a: FS, b: FS) -> bool {
    a.date < b.date || (a.date == b.date && seq_less(a.name@, b.name@))
}

/// No record of `s` is older than one before it.
pub open spec fn sorted_by_age(s: Seq<FS>) -> bool {
    forall|i: int, j: int| 0 <= i < j < s.len() ==> !older(#[trigger] s[j], #[trigger] s[i])
}

/// `s` holds the records of `m`, each as often, from oldest to newest.
pub open spec fn arranged_by_age(s: Seq<FS>, m: Seq<FS>) -> bool {
    s.to_multiset() == m.to_multiset() && sorted_by_age(s)
}

/// How many of `n` records fall outside a window of `keep`.
pub open spec fn excess(n: nat, keep: nat) -> nat {
    if n > keep {
        (n - keep) as nat
    } else {
        0
    }
}

impl Zfs {
    /// Whether `s` is a snapshot of `fs` taken under this run's prefix and label.
    pub open spec fn belongs(&self, fs: FS, s: FS) -> bool {
        &&& s.fs@ == fs.name@
        &&& snapshot_name(fs.name@, self.prefix@, self.label@, Seq::empty()).is_prefix_of(s.name@)
    }

    /// `belongs` for `fs`, as a predicate on records.
    pub open spec fn belongs_to(&self, fs: FS) -> spec_fn(FS) -> bool {
        |s: FS| self.belongs(fs, s)
    }

    /// The records of `snaps` that are snapshots of `fs` under this run's
    /// naming scheme, in listing order.
    pub open spec fn matching(&self, fs: FS, snaps: Seq<FS>) -> Seq<FS> {
        snaps.filter(self.belongs_to(fs))
    }
}

proof fn lemma_seq_less_transitive(a: Seq<char>, b: Seq<char>, c: Seq<char>)
    requires
        seq_less(a, b),
        seq_less(b, c),
    ensures
        seq_less(a, c),
    decreases a.len(),
{
    if a.len() > 0 && b.len() > 0 && c.len() > 0 && a[0] == b[0] && b[0] == c[0] {
        lemma_seq_less_transitive(a.drop_first(), b.drop_first(), c.drop_first());
    }
}

proof fn lemma_seq_less_asymmetric(a: Seq<char>, b: Seq<char>)
    requires
        seq_less(a, b),
    ensures
        !seq_less(b, a),
    decreases a.len(),
{
    if a.len() > 0 && b.len() > 0 && a[0] == b[0] {
        lemma_seq_less_asymmetric(a.drop_first(), b.drop_first());
    }
}

proof fn lemma_seq_less_total(a: Seq<char>, b: Seq<char>)
    requires
        a != b,
    ensures
        seq_less(a, b) || seq_less(b, a),
    decreases a.len(),
{
    if a.len() == 0 {
        if b.len() == 0 {
            assert(a =~= b);
        }
    } else if b.len() > 0 && a[0] == b[0] {
        if a.drop_first() == b.drop_first() {
            assert(a =~= seq![a[0]] + a.drop_first());
            assert(b =~= seq![b[0]] + b.drop_first());
        }
        lemma_seq_less_total(a.drop_first(), b.drop_first());
    }
}

/// No two records of `m` share a name.
pub open spec fn names_distinct(m: Seq<FS>) -> bool {
    forall|i: int, j: int| 0 <= i < j < m.len() ==> (#[trigger] m[i]).name@ != (#[trigger] m[j]).name@
}

/// Records with distinct names are ordered by age one way or the other, so
/// a listing whose names are distinct has exactly one arrangement by age:
/// what is expendable in it, and which snapshot is newest, is determined.
pub proof fn lemma_arrangement_unique(s1: Seq<FS>, s2: Seq<FS>, m: Seq<FS>)
    requires
        arranged_by_age(s1, m),
        arranged_by_age(s2, m),
        names_distinct(m),
    ensures
        s1 == s2,
{
    broadcast use group_to_multiset_ensures;

    assert(m.no_duplicates()) by {
        assert forall|i: int, j: int| 0 <= i < m.len() && 0 <= j < m.len() && i != j implies m[i]
            != m[j] by {
            if i < j {
                assert(m[i].name@ != m[j].name@);
            } else {
                assert(m[j].name@ != m[i].name@);
            }
        }
    }
    m.lemma_multiset_has_no_duplicates();
    s1.lemma_multiset_has_no_duplicates_conv();
    assert forall|i: int, j: int| 0 <= i < j < s1.len() implies (#[trigger] s1[i]).name@ != (
    #[trigger] s1[j]).name@ by {
        s1.to_multiset_ensures();
        m.to_multiset_ensures();
        assert(s1.contains(s1[i]) && s1.contains(s1[j]));
        assert(s1.to_multiset().count(s1[i]) > 0 && s1.to_multiset().count(s1[j]) > 0);
        assert(m.contains(s1[i]) && m.contains(s1[j]));
        let p = m.index_of(s1[i]);
        let q = m.index_of(s1[j]);
        if s1[i].name@ == s1[j].name@ {
            if p < q {
                assert(m[p].name@ != m[q].name@);
            } else if q < p {
                assert(m[q].name@ != m[p].name@);
            }
        }
    }
    lemma_sorted_unique(s1, s2);
}

proof fn lemma_sorted_unique(s1: Seq<FS>, s2: Seq<FS>)
    requires
        s1.to_multiset() == s2.to_multiset(),
        sorted_by_age(s1),
        sorted_by_age(s2),
        names_distinct(s1),
    ensures
        s1 == s2,
    decreases s1.len(),
{
    broadcast use group_to_multiset_ensures;

    s1.to_multiset_ensures();
    s2.to_multiset_ensures();
    if s1.len() == 0 {
        assert(s2.to_multiset().len() == 0);
        assert(s1 =~= s2);
    } else {
        assert(s2.len() == s1.len());
        let x = s1[0];
        let y = s2[0];
        assert(s2.contains(y));
        assert(s2.to_multiset().count(y) > 0);
        assert(s1.contains(y));
        assert(s1.contains(x));
        assert(s1.to_multiset().count(x) > 0);
        assert(s2.contains(x));
        let i = s1.index_of(y);
        let j = s2.index_of(x);
        if x != y {
            assert(i != 0);
            assert(x.name@ != y.name@);
            assert(!older(s1[i], s1[0]));
            assert(!older(s2[j], s2[0]) || j == 0);
            if x.date == y.date {
                lemma_seq_less_total(x.name@, y.name@);
            }
        }
        assert(s1.remove(0) =~= s1.drop_first());
        assert(s2.remove(0) =~= s2.drop_first());
        assert(s1.drop_first().to_multiset() == s2.drop_first().to_multiset());
        lemma_sorted_unique(s1.drop_first(), s2.drop_first());
        assert(s1 =~= seq![x] + s1.drop_first());
        assert(s2 =~= seq![y] + s2.drop_first());
    }
}

proof fn lemma_older_transitive(a: FS, b: FS, c: FS)
    requires
        older(a, b),
        older(b, c),
    ensures
        older(a, c),
{
    if a.date == b.date && b.date == c.date {
        lemma_seq_less_transitive(a.name@, b.name@, c.name@);
    }
}

proof fn lemma_older_asymmetric(a: FS, b: FS)
    requires
        older(a, b),
    ensures
        !older(b, a),
{
    if a.date == b.date {
        lemma_seq_less_asymmetric(a.name@, b.name@);
    }
}

proof fn lemma_matching_belongs(z: &Zfs, fs: FS, snaps: Seq<FS>, s: FS)
    requires
        z.matching(fs, snaps).contains(s),
    ensures
        z.belongs(fs, s),
{
    snaps.lemma_filter_contains_rev(z.belongs_to(fs), s);
}

/// Whether `a` is strictly older than `b`.
fn is_older(a: &FS, b: &FS) -> (r: bool)
    ensures
        r == older(*a, *b),
{
    a.date < b.date || (a.date == b.date && str_less(a.name.as_str(), b.name.as_str()))
}

/// All but the last `keep` records of `sorted`.
fn oldest<'a>(sorted: &Vec<&'a FS>, keep: usize) -> (r: Vec<&'a FS>)
    ensures
        r.len() == excess(sorted.len() as nat, keep as nat),
        r@.unref() == sorted@.unref().take(excess(sorted.len() as nat, keep as nat) as int),
{
    let ghost all = sorted@.unref();
    let mut r: Vec<&'a FS> = Vec::new();
    if sorted.len() > keep {
        let n = sorted.len() - keep;
        let mut i: usize = 0;
        while i < n
            invariant
                n <= sorted.len(),
                i <= n,
                all == sorted@.unref(),
                r@.unref() == all.take(i as int),
            decreases n - i,
        {
            let ghost prev = r@.unref();
            r.push(sorted[i]);
            assert(r@.unref() =~= prev.push(all[i as int]));
            assert(all.take(i + 1) =~= all.take(i as int).push(all[i as int]));
            i = i + 1;
        }
    } else {
        assert(r@.unref() =~= all.take(0));
    }
    r
}

impl Zfs {
    /// The snapshots of `fs` under this run's naming scheme, oldest first.
    pub fn filter_snaps<'a>(&self, fs: &FS, snaps: &'a [FS]) -> (r: Vec<&'a FS>)
        ensures
            arranged_by_age(r@.unref(), self.matching(*fs, snaps@)),
    {
        broadcast use group_to_multiset_ensures;

        let name = self.sname(fs.name.as_str(), Some(""));
        proof {
            reveal_strlit("");
            assert(""@ =~= Seq::<char>::empty());
        }
        let mut r: Vec<&'a FS> = Vec::new();
        let mut i: usize = 0;
        while i < snaps.len()
            invariant
                i <= snaps.len(),
                name@ == snapshot_name(fs.name@, self.prefix@, self.label@, Seq::empty()),
                r@.unref().to_multiset() == self.matching(*fs, snaps@.take(i as int)).to_multiset(),
                sorted_by_age(r@.unref()),
            decreases snaps.len() - i,
        {
            let s = &snaps[i];
            let ghost pred = self.belongs_to(*fs);
            let ghost before = self.matching(*fs, snaps@.take(i as int));
            assert(snaps@.take(i + 1) =~= snaps@.take(i as int).push(snaps@[i as int]));
            proof {
                snaps@.take(i as int).lemma_filter_push(snaps@[i as int], pred);
            }
            assert(self.matching(*fs, snaps@.take(i + 1)) == if pred(*s) {
                before.push(*s)
            } else {
                before
            });
            if s.fs == fs.name && starts_with(s.name.as_str(), name.as_str()) {
                let mut k: usize = 0;
                while k < r.len() && !is_older(s, r[k])
                    invariant
                        k <= r.len(),
                        forall|j: int| 0 <= j < k ==> !older(*s, #[trigger] r@.unref()[j]),
                    decreases r.len() - k,
                {
                    k = k + 1;
                }
                let ghost old_r = r@.unref();
                r.insert(k, s);
                assert(r@.unref() =~= old_r.insert(k as int, *s));
                proof {
                    to_multiset_insert(old_r, k as int, *s);
                    before.to_multiset_ensures();
                }
                assert(before.push(*s).to_multiset() =~= before.to_multiset().insert(*s));
                assert forall|a: int, b: int| 0 <= a < b < r@.len() implies !older(
                    #[trigger] r@.unref()[b],
                    #[trigger] r@.unref()[a],
                ) by {
                    let u = r@.unref();
                    if b == k {
                        assert(u[a] == old_r[a]);
                    } else if a == k {
                        assert(u[b] == old_r[b - 1]);
                        assert(k < old_r.len());
                        assert(older(*s, old_r[k as int]));
                        if older(u[b], *s) {
                            if b - 1 == k {
                                lemma_older_asymmetric(*s, old_r[k as int]);
                            } else {
                                lemma_older_transitive(old_r[b - 1], *s, old_r[k as int]);
                            }
                        }
                    } else if a < k && b > k {
                        assert(u[a] == old_r[a]);
                        assert(u[b] == old_r[b - 1]);
                    } else if b < k {
                        assert(u[a] == old_r[a]);
                        assert(u[b] == old_r[b]);
                    } else {
                        assert(u[a] == old_r[a - 1]);
                        assert(u[b] == old_r[b - 1]);
                    }
                }
            }
            i = i + 1;
        }
        assert(snaps@.take(i as int) =~= snaps@);
        r
    }

    /// The snapshots of `fs` that fall outside the retention window: all but
    /// the `history` newest, oldest first.
    pub fn find_expendable_snapshots<'a>(&'a self, fs: &FS, snaps: &'a [FS]) -> (r: Vec<&'a FS>)
        ensures
            r.len() == excess(self.matching(*fs, snaps@).len(), self.history as nat),
            exists|s: Seq<FS>|
                arranged_by_age(s, self.matching(*fs, snaps@)) && r@.unref() == s.take(
                    r.len() as int,
                ),
            forall|k: int| 0 <= k < r.len() ==> (#[trigger] r@[k]).fs@ == fs.name@,
    {
        broadcast use group_to_multiset_ensures;

        let sorted = self.filter_snaps(fs, snaps);
        let ghost all = sorted@.unref();
        let ghost m = self.matching(*fs, snaps@);
        let r = oldest(&sorted, self.history);
        assert(all.to_multiset().len() == m.to_multiset().len());
        assert(all.len() == m.len());
        assert forall|k: int| 0 <= k < r.len() implies (#[trigger] r@[k]).fs@ == fs.name@ by {
            assert(r@.unref()[k] == all[k]);
            assert(all.contains(all[k]));
            assert(all.to_multiset().count(all[k]) > 0);
            assert(m.to_multiset().count(all[k]) > 0);
            assert(m.contains(all[k]));
            lemma_matching_belongs(self, *fs, snaps@, all[k]);
        }
        r
    }

    /// Whether a new snapshot of `fs` is due: when it has none under this
    /// run's naming scheme, or when the newest of them has more than
    /// `min_size` bytes written.
    pub fn next_snapshot_needed<'a>(&'a self, min_size: usize, fs: &FS, snaps: &'a [FS]) -> (r:
        bool)
        ensures
            exists|s: Seq<FS>|
                arranged_by_age(s, self.matching(*fs, snaps@)) && r == (s.len() == 0
                    || s.last().written > min_size),
            self.matching(*fs, snaps@).len() == 0 ==> r,
    {
        broadcast use group_to_multiset_ensures;

        let sorted = self.filter_snaps(fs, snaps);
        let ghost all = sorted@.unref();
        assert(all.to_multiset().len() == self.matching(*fs, snaps@).to_multiset().len());
        if sorted.len() == 0 {
            true
        } else {
            sorted[sorted.len() - 1].written > min_size
        }
    }

    /// What a run does with the filesystem `fs`: `None` leaves it alone
    /// (not opted in, or not enough written since its newest snapshot);
    /// `Some(expendable)` takes a new snapshot and then destroys
    /// `expendable`, chosen before the new snapshot exists.
    pub fn rotation<'a>(&'a self, min_size: usize, fs: &FS, snaps: &'a [FS]) -> (r: Option<
        Vec<&'a FS>,
    >)
        ensures
            !fs.snap ==> r is None,
            fs.snap ==> exists|s: Seq<FS>|
                arranged_by_age(s, self.matching(*fs, snaps@)) && (r is Some <==> (s.len() == 0
                    || s.last().written > min_size)) && (r matches Some(v) ==> v@.unref()
                    == s.take(excess(s.len(), self.history as nat) as int)),
    {
        if !fs.snap {
            return None;
        }
        let sorted = self.filter_snaps(fs, snaps);
        let ghost all = sorted@.unref();
        assert(arranged_by_age(all, self.matching(*fs, snaps@)));
        assert(all.len() == sorted.len());
        if sorted.len() > 0 && sorted[sorted.len() - 1].written <= min_size {
            assert(all.last() == *sorted@[sorted.len() - 1]);
            return None;
        }
        let r = oldest(&sorted, self.history);
        assert(sorted.len() > 0 ==> all.last() == *sorted@[sorted.len() - 1]);
        Some(r)
    }
}

} // verus!