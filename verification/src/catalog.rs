//! The catalog of commands: a two-level mapping from group names to groups,
//! and from step names to steps. Both levels keep their entries sorted in
//! strictly ascending lexicographic order of name, so that each name occurs
//! at most once and the execution order of a group's steps is fixed by the
//! data structure itself.

use vstd::prelude::*;

use crate::order::lemma_lex_lt_asymmetric;
use crate::order::lemma_lex_lt_total;
use crate::order::lemma_lex_lt_transitive;
use crate::order::lex_lt;
use crate::order::str_eq;
use crate::order::str_lex_lt;

verus! {

/// One executable unit: a program (or the `cd` pseudo-command) and its
/// argument list.
#[derive(Debug)]
pub struct Step {
    pub command: String,
    pub args: Vec<String>,
}

/// The mathematical value of a step.
#[verifier::ext_equal]
pub ghost struct StepView {
    pub command: Seq<char>,
    pub args: Seq<Seq<char>>,
}

impl View for Step {
    type V = StepView;

    open spec fn view(&self) -> StepView {
        StepView { command: self.command@, args: self.args.deep_view() }
    }
}

/// A sequence of named entries is strictly sorted by name.
pub open spec fn entries_sorted<T>(s: Seq<(Seq<char>, T)>) -> bool {
    forall|i: int, j: int| 0 <= i < j < s.len() ==> lex_lt(#[trigger] s[i].0, #[trigger] s[j].0)
}

/// Some entry of `s` is named `n`.
pub open spec fn has_key<T>(s: Seq<(Seq<char>, T)>, n: Seq<char>) -> bool {
    exists|i: int| 0 <= i < s.len() && (#[trigger] s[i]).0 == n
}

/// Adding a named entry to a sorted sequence: at its one sorted position, or
/// not at all when the name is already taken.
pub open spec fn sorted_insert<T>(s: Seq<(Seq<char>, T)>, n: Seq<char>, v: T) -> Option<
    Seq<(Seq<char>, T)>,
> {
    if has_key(s, n) {
        Option::None
    } else {
        Option::Some(s.insert(insert_position(s, n), (n, v)))
    }
}

/// The position at which a new entry named `n` belongs in `s`: the number of
/// entries whose name comes before `n`.
pub open spec fn insert_position<T>(s: Seq<(Seq<char>, T)>, n: Seq<char>) -> int
    decreases s.len(),
{
    if s.len() == 0 {
        0
    } else if lex_lt(s[0].0, n) {
        1 + insert_position(s.skip(1), n)
    } else {
        0
    }
}

/// The tail of a sorted sequence of entries is sorted.
proof fn lemma_entries_sorted_skip<T>(s: Seq<(Seq<char>, T)>)
    requires
        entries_sorted(s),
        s.len() > 0,
    ensures
        entries_sorted(s.skip(1)),
{
    let t = s.skip(1);
    assert forall|p: int, q: int| 0 <= p < q < t.len() implies lex_lt(
        #[trigger] t[p].0,
        #[trigger] t[q].0,
    ) by {
        assert(t[p] == s[p + 1]);
        assert(t[q] == s[q + 1]);
    }
}

/// What `insert_position` means on a sorted sequence: every entry before it
/// is named below `n`, and the entry at it (if any) is not.
proof fn lemma_insert_position_facts<T>(s: Seq<(Seq<char>, T)>, n: Seq<char>)
    requires
        entries_sorted(s),
    ensures
        0 <= insert_position(s, n) <= s.len(),
        forall|j: int| 0 <= j < insert_position(s, n) ==> lex_lt(#[trigger] s[j].0, n),
        insert_position(s, n) < s.len() ==> !lex_lt(s[insert_position(s, n)].0, n),
    decreases s.len(),
{
    if s.len() > 0 && lex_lt(s[0].0, n) {
        let t = s.skip(1);
        lemma_entries_sorted_skip(s);
        lemma_insert_position_facts(t, n);
        let p = insert_position(s, n);
        assert forall|j: int| 0 <= j < p implies lex_lt(#[trigger] s[j].0, n) by {
            if j > 0 {
                assert(t[j - 1] == s[j]);
            }
        }
        if p < s.len() {
            assert(t[p - 1] == s[p]);
        }
    }
}

/// A named collection of steps, kept sorted by step name.
#[derive(Debug)]
pub struct Group {
    pub steps: Vec<(String, Step)>,
}

impl View for Group {
    type V = Seq<(Seq<char>, StepView)>;

    open spec fn view(&self) -> Seq<(Seq<char>, StepView)> {
        self.steps@.map_values(|p: (String, Step)| (p.0@, p.1@))
    }
}

impl Group {
    /// Well-formed: step names strictly ascending, hence unique.
    pub open spec fn wf(self) -> bool {
        entries_sorted(self@)
    }

    pub open spec fn has_step(self, n: Seq<char>) -> bool {
        has_key(self@, n)
    }

    pub fn new() -> (g: Group)
        ensures
            g@ =~= Seq::<(Seq<char>, StepView)>::empty(),
            g.wf(),
    {
        Group { steps: Vec::new() }
    }

    /// The position at which an entry named `name` belongs.
    fn lower_bound(&self, name: &str) -> (i: usize)
        requires
            self.wf(),
        ensures
            i as int == insert_position(self@, name@),
            i <= self@.len(),
            self@.len() == self.steps@.len(),
    {
        let ghost entries = self@;
        let ghost n = name@;
        proof {
            lemma_insert_position_facts(entries, n);
        }
        let mut i: usize = 0;
        loop
            invariant
                self.wf(),
                self@ == entries,
                n == name@,
                entries.len() == self.steps@.len(),
                i <= entries.len(),
                i as int <= insert_position(entries, n),
                forall|j: int| 0 <= j < insert_position(entries, n) ==> lex_lt(
                    #[trigger] entries[j].0,
                    n,
                ),
                insert_position(entries, n) < entries.len() ==> !lex_lt(
                    entries[insert_position(entries, n)].0,
                    n,
                ),
                insert_position(entries, n) <= entries.len(),
            decreases entries.len() - i,
        {
            if i >= self.steps.len() {
                return i;
            }
            proof {
                assert(entries[i as int] == (self.steps@[i as int].0@, self.steps@[i as int].1@));
            }
            if !str_lex_lt(self.steps[i].0.as_str(), name) {
                proof {
                    if (i as int) < insert_position(entries, n) {
                        assert(lex_lt(entries[i as int].0, n));
                    }
                }
                return i;
            }
            proof {
                if insert_position(entries, n) == i as int {
                    assert(!lex_lt(entries[i as int].0, n));
                }
            }
            i = i + 1;
        }
    }

    /// Adds a step under `name`, keeping the entries sorted. Returns `false`
    /// and leaves the group unchanged when the name is already taken.
    pub fn insert(&mut self, name: String, step: Step) -> (r: bool)
        requires
            old(self).wf(),
        ensures
            final(self).wf(),
            r == !old(self).has_step(name@),
            r ==> final(self)@ =~= old(self)@.insert(
                insert_position(old(self)@, name@),
                (name@, step@),
            ),
            !r ==> final(self)@ =~= old(self)@,
    {
        let ghost entries = self@;
        let ghost n = name@;
        let i = self.lower_bound(name.as_str());
        proof {
            lemma_insert_position_facts(entries, n);
        }
        if i < self.steps.len() {
            proof {
                assert(entries[i as int] == (self.steps@[i as int].0@, self.steps@[i as int].1@));
            }
            if str_eq(self.steps[i].0.as_str(), name.as_str()) {
                proof {
                    assert((self@[i as int]).0 == n);
                }
                return false;
            }
        }
        proof {
            // the name is nowhere in the group: entries before position i are
            // strictly below it, entries from i on are strictly above it
            if (i as int) < entries.len() {
                lemma_lex_lt_total(entries[i as int].0, n);
            }
            assert forall|j: int| i <= j < entries.len() implies lex_lt(
                n,
                #[trigger] entries[j].0,
            ) by {
                if j > i {
                    lemma_lex_lt_transitive(n, entries[i as int].0, entries[j].0);
                }
            }
            assert forall|j: int| 0 <= j < entries.len() implies (#[trigger] entries[j]).0 != n by {
                if j < i {
                    lemma_lex_lt_asymmetric(entries[j].0, n);
                } else {
                    lemma_lex_lt_asymmetric(n, entries[j].0);
                }
            }
        }
        self.steps.insert(i, (name, step));
        proof {
            let inserted = entries.insert(i as int, (n, step@));
            assert(self@ =~= inserted);
            assert forall|p: int, q: int| 0 <= p < q < inserted.len() implies lex_lt(
                #[trigger] inserted[p].0,
                #[trigger] inserted[q].0,
            ) by {
                if q < i as int {
                    assert(inserted[p] == entries[p]);
                    assert(inserted[q] == entries[q]);
                } else if p > i as int {
                    assert(inserted[p] == entries[p - 1]);
                    assert(inserted[q] == entries[q - 1]);
                } else if p < i as int && q == i as int {
                    assert(inserted[p] == entries[p]);
                } else if p == i as int {
                    assert(inserted[q] == entries[q - 1]);
                } else {
                    assert(inserted[p] == entries[p]);
                    assert(inserted[q] == entries[q - 1]);
                }
            }
        }
        true
    }

    /// The step stored under `name`, if any.
    pub fn get_step(&self, name: &str) -> (r: Option<&Step>)
        requires
            self.wf(),
        ensures
            match r {
                Some(s) => exists|i: int|
                    0 <= i < self@.len() && (#[trigger] self@[i]) == (name@, s@),
                None => !self.has_step(name@),
            },
    {
        let mut i: usize = 0;
        loop
            invariant
                self.wf(),
                i <= self@.len(),
                self@.len() == self.steps@.len(),
                forall|j: int| 0 <= j < i ==> (#[trigger] self@[j]).0 != name@,
            decreases self@.len() - i,
        {
            if i >= self.steps.len() {
                return None;
            }
            proof {
                assert(self@[i as int] == (self.steps@[i as int].0@, self.steps@[i as int].1@));
            }
            if str_eq(self.steps[i].0.as_str(), name) {
                return Some(&self.steps[i].1);
            }
            i = i + 1;
        }
    }
}

/// The full command catalog: named groups, kept sorted by group name.
#[derive(Debug)]
pub struct Catalog {
    pub groups: Vec<(String, Group)>,
}

impl View for Catalog {
    type V = Seq<(Seq<char>, Seq<(Seq<char>, StepView)>)>;

    open spec fn view(&self) -> Seq<(Seq<char>, Seq<(Seq<char>, StepView)>)> {
        self.groups@.map_values(|p: (String, Group)| (p.0@, p.1@))
    }
}

impl Catalog {
    /// Well-formed: group names strictly ascending, every group well-formed.
    pub open spec fn wf(self) -> bool {
        &&& entries_sorted(self@)
        &&& forall|i: int| 0 <= i < self@.len() ==> entries_sorted((#[trigger] self@[i]).1)
    }

    pub open spec fn has_group(self, n: Seq<char>) -> bool {
        has_key(self@, n)
    }

    /// The steps of the group named `n` (meaningful only when `has_group`).
    pub open spec fn group_steps(self, n: Seq<char>) -> Seq<(Seq<char>, StepView)> {
        let i = choose|i: int| 0 <= i < self@.len() && (#[trigger] self@[i]).0 == n;
        self@[i].1
    }

    pub fn new() -> (c: Catalog)
        ensures
            c@ =~= Seq::<(Seq<char>, Seq<(Seq<char>, StepView)>)>::empty(),
            c.wf(),
    {
        Catalog { groups: Vec::new() }
    }

    /// The position at which an entry named `name` belongs.
    fn lower_bound(&self, name: &str) -> (i: usize)
        requires
            self.wf(),
        ensures
            i as int == insert_position(self@, name@),
            i <= self@.len(),
            self@.len() == self.groups@.len(),
    {
        let ghost entries = self@;
        let ghost n = name@;
        proof {
            lemma_insert_position_facts(entries, n);
        }
        let mut i: usize = 0;
        loop
            invariant
                self.wf(),
                self@ == entries,
                n == name@,
                entries.len() == self.groups@.len(),
                i <= entries.len(),
                i as int <= insert_position(entries, n),
                forall|j: int| 0 <= j < insert_position(entries, n) ==> lex_lt(
                    #[trigger] entries[j].0,
                    n,
                ),
                insert_position(entries, n) < entries.len() ==> !lex_lt(
                    entries[insert_position(entries, n)].0,
                    n,
                ),
                insert_position(entries, n) <= entries.len(),
            decreases entries.len() - i,
        {
            if i >= self.groups.len() {
                return i;
            }
            proof {
                assert(entries[i as int] == (self.groups@[i as int].0@, self.groups@[i as int].1@));
            }
            if !str_lex_lt(self.groups[i].0.as_str(), name) {
                proof {
                    if (i as int) < insert_position(entries, n) {
                        assert(lex_lt(entries[i as int].0, n));
                    }
                }
                return i;
            }
            proof {
                if insert_position(entries, n) == i as int {
                    assert(!lex_lt(entries[i as int].0, n));
                }
            }
            i = i + 1;
        }
    }

    /// Adds a group under `name`, keeping the entries sorted. Returns `false`
    /// and leaves the catalog unchanged when the name is already taken.
    pub fn insert(&mut self, name: String, group: Group) -> (r: bool)
        requires
            old(self).wf(),
            group.wf(),
        ensures
            final(self).wf(),
            r == !old(self).has_group(name@),
            r ==> final(self)@ =~= old(self)@.insert(
                insert_position(old(self)@, name@),
                (name@, group@),
            ),
            !r ==> final(self)@ =~= old(self)@,
    {
        let ghost entries = self@;
        let ghost n = name@;
        let i = self.lower_bound(name.as_str());
        proof {
            lemma_insert_position_facts(entries, n);
        }
        if i < self.groups.len() {
            proof {
                assert(entries[i as int] == (self.groups@[i as int].0@, self.groups@[i as int].1@));
            }
            if str_eq(self.groups[i].0.as_str(), name.as_str()) {
                proof {
                    assert((self@[i as int]).0 == n);
                }
                return false;
            }
        }
        proof {
            if (i as int) < entries.len() {
                lemma_lex_lt_total(entries[i as int].0, n);
            }
            assert forall|j: int| i <= j < entries.len() implies lex_lt(
                n,
                #[trigger] entries[j].0,
            ) by {
                if j > i {
                    lemma_lex_lt_transitive(n, entries[i as int].0, entries[j].0);
                }
            }
            assert forall|j: int| 0 <= j < entries.len() implies (#[trigger] entries[j]).0 != n by {
                if j < i {
                    lemma_lex_lt_asymmetric(entries[j].0, n);
                } else {
                    lemma_lex_lt_asymmetric(n, entries[j].0);
                }
            }
        }
        self.groups.insert(i, (name, group));
        proof {
            let inserted = entries.insert(i as int, (n, group@));
            assert(self@ =~= inserted);
            assert forall|p: int, q: int| 0 <= p < q < inserted.len() implies lex_lt(
                #[trigger] inserted[p].0,
                #[trigger] inserted[q].0,
            ) by {
                if q < i as int {
                    assert(inserted[p] == entries[p]);
                    assert(inserted[q] == entries[q]);
                } else if p > i as int {
                    assert(inserted[p] == entries[p - 1]);
                    assert(inserted[q] == entries[q - 1]);
                } else if p < i as int && q == i as int {
                    assert(inserted[p] == entries[p]);
                } else if p == i as int {
                    assert(inserted[q] == entries[q - 1]);
                } else {
                    assert(inserted[p] == entries[p]);
                    assert(inserted[q] == entries[q - 1]);
                }
            }
            assert forall|k: int| 0 <= k < inserted.len() implies entries_sorted(
                (#[trigger] inserted[k]).1,
            ) by {
                if k < i as int {
                    assert(inserted[k] == entries[k]);
                } else if k > i as int {
                    assert(inserted[k] == entries[k - 1]);
                }
            }
        }
        true
    }

    /// The group stored under `name`, if any.
    pub fn get_group(&self, name: &str) -> (r: Option<&Group>)
        requires
            self.wf(),
        ensures
            match r {
                Some(g) => {
                    &&& self.has_group(name@)
                    &&& g@ == self.group_steps(name@)
                    &&& g.wf()
                },
                None => !self.has_group(name@),
            },
    {
        let mut i: usize = 0;
        loop
            invariant
                self.wf(),
                i <= self@.len(),
                self@.len() == self.groups@.len(),
                forall|j: int| 0 <= j < i ==> (#[trigger] self@[j]).0 != name@,
            decreases self@.len() - i,
        {
            if i >= self.groups.len() {
                return None;
            }
            proof {
                assert(self@[i as int] == (self.groups@[i as int].0@, self.groups@[i as int].1@));
            }
            if str_eq(self.groups[i].0.as_str(), name) {
                proof {
                    assert((self@[i as int]).0 == name@);
                    let w = choose|w: int|
                        0 <= w < self@.len() && (#[trigger] self@[w]).0 == name@;
                    if w != i as int {
                        lemma_distinct_names(self@, w, i as int);
                    }
                }
                return Some(&self.groups[i].1);
            }
            i = i + 1;
        }
    }
}

/// In a sorted sequence of entries, two distinct positions hold distinct
/// names.
proof fn lemma_distinct_names<T>(s: Seq<(Seq<char>, T)>, p: int, q: int)
    requires
        entries_sorted(s),
        0 <= p < s.len(),
        0 <= q < s.len(),
        p != q,
    ensures
        s[p].0 != s[q].0,
{
    if p < q {
        lemma_lex_lt_asymmetric(s[p].0, s[q].0);
    } else {
        lemma_lex_lt_asymmetric(s[q].0, s[p].0);
    }
}

} // verus!
