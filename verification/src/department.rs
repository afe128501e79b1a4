//! Departments: the roster that says which of them exist and under which
//! apartment, the one department that may live in two apartments, and the
//! ordered keys of the department groups of a scope.
//!
//! Which department groups exist is decided by the department roster, not by
//! the records of the day.

use vstd::prelude::*;
use crate::group::GroupView;
use crate::model::{DepartmentRecord, DepartmentRecordView, ProcessedRecord, ProcessedRecordView};
use crate::text::{
    is_code_a, lemma_text_lt_irreflexive, lemma_text_lt_total, lemma_text_lt_transitive,
    text_before, text_lt,
};

verus! {

/// The key of a department group: a grade and a department code.
pub struct DeptKey<'a> {
    pub grade: u8,
    pub dept: &'a String,
}

/// View of a [`DeptKey`].
pub struct DeptKeyView {
    pub grade: u8,
    pub dept: Seq<char>,
}

impl<'a> DeepView for DeptKey<'a> {
    type V = DeptKeyView;

    open spec fn deep_view(&self) -> DeptKeyView {
        DeptKeyView { grade: self.grade, dept: self.dept@ }
    }
}

/// The department group of a key.
pub open spec fn department(k: DeptKeyView) -> GroupView {
    GroupView::Department { grade: k.grade, dept: k.dept }
}

/// The one department whose members may live in either of the two
/// apartments: department `A` of grade 2.
pub open spec fn is_dual(k: DeptKeyView) -> bool {
    k.grade == 2 && k.dept == seq!['A']
}

/// The key of a roster entry.
pub open spec fn roster_key(e: DepartmentRecordView) -> DeptKeyView {
    DeptKeyView { grade: e.grade, dept: e.dept }
}

/// The department key of a record.
pub open spec fn record_key(r: ProcessedRecordView) -> DeptKeyView {
    DeptKeyView { grade: r.grade, dept: r.dept }
}

/// The roster's entry for a department. Where the roster lists a department
/// more than once, the last entry counts.
pub open spec fn department_entry(roster: Seq<DepartmentRecordView>, k: DeptKeyView) -> Option<
    DepartmentRecordView,
>
    decreases roster.len(),
{
    if roster.len() == 0 {
        None
    } else if roster_key(roster.last()) == k {
        Some(roster.last())
    } else {
        department_entry(roster.drop_last(), k)
    }
}

/// The leader of a department; empty where the roster does not list it.
pub open spec fn leader_of(roster: Seq<DepartmentRecordView>, k: DeptKeyView) -> Seq<char> {
    match department_entry(roster, k) {
        Some(e) => e.leader,
        None => Seq::empty(),
    }
}

/// Whether the roster lists department `k` under apartment `apt`.
pub open spec fn is_home(roster: Seq<DepartmentRecordView>, k: DeptKeyView, apt: u8) -> bool {
    match department_entry(roster, k) {
        Some(e) => e.apartment == apt,
        None => false,
    }
}

/// Whether `apt` is an apartment of the table: the roster lists some
/// department under it.
pub open spec fn is_listed(roster: Seq<DepartmentRecordView>, apt: u8) -> bool {
    exists|i: int| 0 <= i < roster.len() && is_home(roster, roster_key(#[trigger] roster[i]), apt)
}

/// Whether the dual-apartment department has a record in apartment `apt`.
pub open spec fn dual_in(data: Seq<ProcessedRecordView>, apt: u8) -> bool {
    exists|i: int|
        0 <= i < data.len() && is_dual(record_key(#[trigger] data[i])) && data[i].apartment == apt
}

/// Whether the dual-apartment department has any record at all.
pub open spec fn dual_anywhere(data: Seq<ProcessedRecordView>) -> bool {
    exists|i: int| 0 <= i < data.len() && is_dual(record_key(#[trigger] data[i]))
}

/// Whether the dual-apartment department has records in both apartments, so
/// that its label, total and rank are written once for both.
pub open spec fn dual_in_both(data: Seq<ProcessedRecordView>) -> bool {
    dual_in(data, 1) && dual_in(data, 2)
}

/// Where the dual-apartment department is seeded: in every block when it has
/// records in both apartments, in the one apartment of the two in which it
/// has records, and in apartment 1 when it has none anywhere.
pub open spec fn shows_dual(data: Seq<ProcessedRecordView>, apt: u8) -> bool {
    ||| dual_in_both(data)
    ||| (dual_in(data, 1) && !dual_in(data, 2) && apt == 1)
    ||| (dual_in(data, 2) && !dual_in(data, 1) && apt == 2)
    ||| (!dual_anywhere(data) && apt == 1)
}

/// Where the dual-apartment department's records are, and the rows between
/// which its shared cells are to be merged once both blocks are written.
pub struct Apt2AState {
    pub in_both: bool,
    pub in_apt1_only: bool,
    pub in_apt2_only: bool,
    pub in_neither: bool,
    pub start_row: Option<u32>,
    pub end_row: Option<u32>,
}

impl Apt2AState {
    /// The four flags say where the dual-apartment department's records
    /// of `data` are.
    pub open spec fn describes(&self, data: Seq<ProcessedRecordView>) -> bool {
        &&& self.in_both == dual_in_both(data)
        &&& self.in_apt1_only == (dual_in(data, 1) && !dual_in(data, 2))
        &&& self.in_apt2_only == (dual_in(data, 2) && !dual_in(data, 1))
        &&& self.in_neither == !dual_anywhere(data)
    }

    /// Looks through the records for those of the dual-apartment department.
    pub fn new(data: &[ProcessedRecord]) -> (state: Self)
        ensures
            state.describes(data.deep_view()),
            state.start_row is None,
            state.end_row is None,
    {
        let ghost all = data.deep_view();
        let mut in_one = false;
        let mut in_two = false;
        let mut anywhere = false;
        let mut i: usize = 0;
        while i < data.len()
            invariant
                i <= data.len(),
                all == data.deep_view(),
                in_one == (exists|j: int|
                    0 <= j < i && is_dual(record_key(#[trigger] all[j])) && all[j].apartment == 1),
                in_two == (exists|j: int|
                    0 <= j < i && is_dual(record_key(#[trigger] all[j])) && all[j].apartment == 2),
                anywhere == (exists|j: int| 0 <= j < i && is_dual(record_key(#[trigger] all[j]))),
            decreases data.len() - i,
        {
            let r = &data[i];
            if r.grade == 2 && is_code_a(r.dept.as_str()) {
                assert(is_dual(record_key(all[i as int])));
                anywhere = true;
                if r.apartment == 1 {
                    in_one = true;
                }
                if r.apartment == 2 {
                    in_two = true;
                }
            }
            i = i + 1;
        }
        Apt2AState {
            in_both: in_one && in_two,
            in_apt1_only: in_one && !in_two,
            in_apt2_only: in_two && !in_one,
            in_neither: !anywhere,
            start_row: None,
            end_row: None,
        }
    }

    /// Whether the dual-apartment department is seeded in the block of
    /// apartment `apt`.
    pub fn should_show_in_apt(&self, apt: u8) -> (show: bool)
        ensures
            show == (self.in_both || (self.in_apt1_only && apt == 1) || (self.in_apt2_only && apt
                == 2) || (self.in_neither && apt == 1)),
            forall|data: Seq<ProcessedRecordView>|
                self.describes(data) ==> show == shows_dual(data, apt),
    {
        self.in_both || (self.in_apt1_only && apt == 1) || (self.in_apt2_only && apt == 2) || (
        self.in_neither && apt == 1)
    }
}

/// Finds the roster's entry for a department.
pub fn find_department<'a>(roster: &'a [DepartmentRecord], grade: u8, dept: &String) -> (found:
    Option<&'a DepartmentRecord>)
    ensures
        found.deep_view() == department_entry(
            roster.deep_view(),
            DeptKeyView { grade, dept: dept@ },
        ),
{
    let ghost all = roster.deep_view();
    let ghost k = DeptKeyView { grade, dept: dept@ };
    let mut i: usize = roster.len();
    assert(all.take(i as int) =~= all);
    while i > 0
        invariant
            i <= roster.len(),
            all == roster.deep_view(),
            k == (DeptKeyView { grade, dept: dept@ }),
            department_entry(all, k) == department_entry(all.take(i as int), k),
        decreases i,
    {
        let e = &roster[i - 1];
        proof {
            assert(all.take(i as int).drop_last() =~= all.take(i - 1));
            assert(all.take(i as int).last() == e.deep_view());
        }
        if e.grade == grade && e.dept == *dept {
            assert(roster_key(e.deep_view()) == k);
            return Some(e);
        }
        i = i - 1;
    }
    None
}

/// Whether key `a` comes before key `b`: by grade, then by department code.
pub open spec fn key_lt(a: DeptKeyView, b: DeptKeyView) -> bool {
    a.grade < b.grade || (a.grade == b.grade && text_lt(a.dept, b.dept))
}

/// Adds a key to an ascending list of distinct keys.
pub open spec fn insert_key(keys: Seq<DeptKeyView>, k: DeptKeyView) -> Seq<DeptKeyView>
    decreases keys.len(),
{
    if keys.len() == 0 {
        seq![k]
    } else if keys.last() == k {
        keys
    } else if key_lt(keys.last(), k) {
        keys.push(k)
    } else {
        insert_key(keys.drop_last(), k).push(keys.last())
    }
}

/// Whether a roster entry seeds a group within a scope. Within the whole
/// report every entry does. Within one apartment an entry does so where the
/// roster lists its department under that apartment; the dual-apartment
/// department follows its own rule.
pub open spec fn seeded_in(
    data: Seq<ProcessedRecordView>,
    roster: Seq<DepartmentRecordView>,
    k: DeptKeyView,
    scope: Option<u8>,
) -> bool {
    match scope {
        None => true,
        Some(apt) => if is_dual(k) {
            shows_dual(data, apt)
        } else {
            is_home(roster, k, apt)
        },
    }
}

/// The keys that the first `n` roster entries seed within a scope.
pub open spec fn seeded_keys(
    data: Seq<ProcessedRecordView>,
    roster: Seq<DepartmentRecordView>,
    scope: Option<u8>,
    n: int,
) -> Seq<DeptKeyView>
    decreases n,
{
    if n <= 0 {
        Seq::empty()
    } else {
        let keys = seeded_keys(data, roster, scope, n - 1);
        let k = roster_key(roster[n - 1]);
        if seeded_in(data, roster, k, scope) {
            insert_key(keys, k)
        } else {
            keys
        }
    }
}

/// Whether a record brings its department key into a scope.
pub open spec fn brings_key(r: ProcessedRecordView, scope: Option<u8>) -> bool {
    r.dept.len() > 0 && match scope {
        Some(apt) => r.apartment == apt,
        None => true,
    }
}

/// The department keys of a scope, ascending: those that the roster seeds and
/// those of the first `m` records.
pub open spec fn department_keys(
    data: Seq<ProcessedRecordView>,
    roster: Seq<DepartmentRecordView>,
    scope: Option<u8>,
    m: int,
) -> Seq<DeptKeyView>
    decreases m,
{
    if m <= 0 {
        seeded_keys(data, roster, scope, roster.len() as int)
    } else {
        let keys = department_keys(data, roster, scope, m - 1);
        if brings_key(data[m - 1], scope) {
            insert_key(keys, record_key(data[m - 1]))
        } else {
            keys
        }
    }
}

/// Where `insert_key` puts a key.
proof fn lemma_insert_key_at(keys: Seq<DeptKeyView>, k: DeptKeyView, p: int)
    requires
        0 <= p <= keys.len(),
        forall|j: int| p <= j < keys.len() ==> #[trigger] keys[j] != k && !key_lt(keys[j], k),
        p == 0 || keys[p - 1] == k || key_lt(keys[p - 1], k),
    ensures
        insert_key(keys, k) == (if p > 0 && keys[p - 1] == k {
            keys
        } else {
            keys.insert(p, k)
        }),
    decreases keys.len(),
{
    if keys.len() == 0 {
        assert(keys.insert(p, k) =~= seq![k]);
    } else if p == keys.len() {
        assert(keys.insert(p, k) =~= keys.push(k));
    } else {
        let rest = keys.drop_last();
        assert(keys[keys.len() - 1] != k && !key_lt(keys[keys.len() - 1], k));
        assert forall|j: int| p <= j < rest.len() implies #[trigger] rest[j] != k && !key_lt(
            rest[j],
            k,
        ) by {
            assert(rest[j] == keys[j]);
        }
        assert(p == 0 || rest[p - 1] == keys[p - 1]);
        lemma_insert_key_at(rest, k, p);
        if p > 0 && keys[p - 1] == k {
            assert(rest.push(keys.last()) =~= keys);
        } else {
            assert(rest.insert(p, k).push(keys.last()) =~= keys.insert(p, k));
        }
    }
}

/// Adds a key to an ascending list of distinct keys.
pub fn add_key<'a>(keys: &mut Vec<DeptKey<'a>>, grade: u8, dept: &'a String)
    ensures
        final(keys).deep_view() == insert_key(
            old(keys).deep_view(),
            DeptKeyView { grade, dept: dept@ },
        ),
        final(keys)@.len() <= old(keys)@.len() + 1,
{
    let ghost before = keys.deep_view();
    let ghost k = DeptKeyView { grade, dept: dept@ };
    let mut p: usize = keys.len();
    let mut placed = false;
    while p > 0 && !placed
        invariant
            p <= keys@.len(),
            keys.deep_view() == before,
            keys@ == old(keys)@,
            k == (DeptKeyView { grade, dept: dept@ }),
            forall|j: int| p <= j < before.len() ==> #[trigger] before[j] != k && !key_lt(
                before[j],
                k,
            ),
            placed ==> p > 0 && key_lt(before[p - 1], k),
        decreases
                p + (if placed {
                    0int
                } else {
                    1int
                }),
    {
        let last = &keys[p - 1];
        assert(before[p - 1] == last.deep_view());
        if last.grade == grade && *last.dept == *dept {
            proof {
                lemma_insert_key_at(before, k, p as int);
            }
            return ;
        }
        if last.grade < grade || (last.grade == grade && text_before(
            last.dept.as_str(),
            dept.as_str(),
        )) {
            placed = true;
        } else {
            p = p - 1;
        }
    }
    proof {
        lemma_insert_key_at(before, k, p as int);
    }
    keys.insert(p, DeptKey { grade, dept });
    assert(keys.deep_view() =~= before.insert(p as int, k));
}

/// Keys in strictly ascending order.
pub open spec fn ascending(keys: Seq<DeptKeyView>) -> bool {
    forall|a: int, b: int| 0 <= a < b < keys.len() ==> key_lt(#[trigger] keys[a], #[trigger] keys[b])
}

/// The order of keys is a strict total order.
pub proof fn lemma_key_order(a: DeptKeyView, b: DeptKeyView, c: DeptKeyView)
    ensures
        !key_lt(a, a),
        a == b || key_lt(a, b) || key_lt(b, a),
        key_lt(a, b) && key_lt(b, c) ==> key_lt(a, c),
{
    lemma_text_lt_irreflexive(a.dept);
    lemma_text_lt_total(a.dept, b.dept);
    if key_lt(a, b) && key_lt(b, c) && a.grade == b.grade && b.grade == c.grade {
        lemma_text_lt_transitive(a.dept, b.dept, c.dept);
    }
}

/// No key occurs twice in an ascending list.
pub proof fn lemma_ascending_is_distinct(keys: Seq<DeptKeyView>)
    requires
        ascending(keys),
    ensures
        keys.no_duplicates(),
{
    assert forall|i: int, j: int| 0 <= i < keys.len() && 0 <= j < keys.len() && i != j implies keys[i]
        != keys[j] by {
        lemma_key_order(keys[i], keys[j], keys[j]);
        if i < j {
            assert(key_lt(keys[i], keys[j]));
        } else {
            assert(key_lt(keys[j], keys[i]));
        }
    }
}

/// `insert_key` keeps a list ascending, and the list then holds the new key
/// and what it held before.
pub proof fn lemma_insert_key(keys: Seq<DeptKeyView>, k: DeptKeyView)
    requires
        ascending(keys),
    ensures
        ascending(insert_key(keys, k)),
        forall|x: DeptKeyView|
            #![trigger insert_key(keys, k).contains(x)]
            #![trigger keys.contains(x)]
            insert_key(keys, k).contains(x) <==> keys.contains(x) || x == k,
    decreases keys.len(),
{
    let out = insert_key(keys, k);
    if keys.len() == 0 {
        assert(out[0] == k);
    } else if keys.last() == k {
        assert(keys[keys.len() - 1] == k);
    } else if key_lt(keys.last(), k) {
        assert forall|a: int, b: int| 0 <= a < b < out.len() implies key_lt(
            #[trigger] out[a],
            #[trigger] out[b],
        ) by {
            if b == keys.len() && a < keys.len() - 1 {
                assert(key_lt(keys[a], keys[keys.len() - 1]));
                lemma_key_order(keys[a], keys.last(), k);
            }
        }
        assert forall|x: DeptKeyView| out.contains(x) <==> keys.contains(x) || x == k by {
            if out.contains(x) {
                let i = choose|i: int| 0 <= i < out.len() && out[i] == x;
                if i < keys.len() {
                    assert(keys[i] == x);
                }
            }
            if keys.contains(x) {
                let i = choose|i: int| 0 <= i < keys.len() && keys[i] == x;
                assert(out[i] == x);
            }
            if x == k {
                assert(out[keys.len() as int] == x);
            }
        }
    } else {
        let rest = keys.drop_last();
        let last = keys.last();
        assert(ascending(rest)) by {
            assert forall|a: int, b: int| 0 <= a < b < rest.len() implies key_lt(
                #[trigger] rest[a],
                #[trigger] rest[b],
            ) by {
                assert(key_lt(keys[a], keys[b]));
            }
        }
        lemma_insert_key(rest, k);
        let inner = insert_key(rest, k);
        lemma_key_order(last, k, k);
        assert(key_lt(k, last));
        assert forall|a: int, b: int| 0 <= a < b < out.len() implies key_lt(
            #[trigger] out[a],
            #[trigger] out[b],
        ) by {
            assert(out == inner.push(last));
            if b == inner.len() {
                let x = inner[a];
                assert(out[a] == x && out[b] == last);
                assert(inner.contains(x));
                assert(rest.contains(x) || x == k);
                if x != k {
                    let j = choose|j: int| 0 <= j < rest.len() && rest[j] == x;
                    assert(keys[j] == x);
                    assert(key_lt(keys[j], keys[keys.len() - 1]));
                }
            } else {
                assert(out[a] == inner[a] && out[b] == inner[b]);
                assert(key_lt(inner[a], inner[b]));
            }
        }
        assert forall|x: DeptKeyView| out.contains(x) <==> keys.contains(x) || x == k by {
            if out.contains(x) {
                let i = choose|i: int| 0 <= i < out.len() && out[i] == x;
                if i < inner.len() {
                    assert(inner[i] == x);
                    assert(inner.contains(x));
                    assert(rest.contains(x) || x == k);
                    if x != k {
                        let j = choose|j: int| 0 <= j < rest.len() && rest[j] == x;
                        assert(keys[j] == x);
                    }
                } else {
                    assert(keys[keys.len() - 1] == x);
                }
            }
            if keys.contains(x) {
                let i = choose|i: int| 0 <= i < keys.len() && keys[i] == x;
                if i < rest.len() {
                    assert(rest[i] == x);
                    assert(rest.contains(x));
                    assert(inner.contains(x));
                    let j = choose|j: int| 0 <= j < inner.len() && inner[j] == x;
                    assert(out[j] == x);
                } else {
                    assert(out[inner.len() as int] == x);
                }
            }
            if x == k {
                assert(inner.contains(x));
                let j = choose|j: int| 0 <= j < inner.len() && inner[j] == x;
                assert(out[j] == x);
            }
        }
    }
}

/// Whether one of the first `n` roster entries has key `k`.
pub open spec fn on_roster(roster: Seq<DepartmentRecordView>, k: DeptKeyView, n: int) -> bool {
    exists|i: int| 0 <= i < n && i < roster.len() && roster_key(#[trigger] roster[i]) == k
}

/// Whether one of the first `m` records brings key `k` into a scope.
pub open spec fn brought(
    data: Seq<ProcessedRecordView>,
    k: DeptKeyView,
    scope: Option<u8>,
    m: int,
) -> bool {
    exists|j: int|
        0 <= j < m && j < data.len() && brings_key(#[trigger] data[j], scope) && record_key(data[j])
            == k
}

/// The keys that the roster seeds in a scope are ascending, and they are the
/// keys of the roster that are seeded there.
pub proof fn lemma_seeded_keys(
    data: Seq<ProcessedRecordView>,
    roster: Seq<DepartmentRecordView>,
    scope: Option<u8>,
    n: int,
)
    requires
        0 <= n <= roster.len(),
    ensures
        ascending(seeded_keys(data, roster, scope, n)),
        forall|x: DeptKeyView|
            #![trigger seeded_keys(data, roster, scope, n).contains(x)]
            seeded_keys(data, roster, scope, n).contains(x) <==> on_roster(roster, x, n)
                && seeded_in(data, roster, x, scope),
    decreases n,
{
    if n > 0 {
        lemma_seeded_keys(data, roster, scope, n - 1);
        let before = seeded_keys(data, roster, scope, n - 1);
        let k = roster_key(roster[n - 1]);
        lemma_insert_key(before, k);
        assert forall|x: DeptKeyView|
            seeded_keys(data, roster, scope, n).contains(x) <==> on_roster(roster, x, n)
                && seeded_in(data, roster, x, scope) by {
            if on_roster(roster, x, n) {
                let i = choose|i: int|
                    0 <= i < n && i < roster.len() && roster_key(#[trigger] roster[i]) == x;
                if i < n - 1 {
                    assert(on_roster(roster, x, n - 1));
                }
            }
            if on_roster(roster, x, n - 1) {
                let i = choose|i: int|
                    0 <= i < n - 1 && i < roster.len() && roster_key(#[trigger] roster[i]) == x;
                assert(0 <= i < n && roster_key(roster[i]) == x);
            }
            if x == k {
                assert(roster_key(roster[n - 1]) == x);
            }
        }
    } else {
        assert forall|x: DeptKeyView| !seeded_keys(data, roster, scope, n).contains(x) by {}
    }
}

/// The department keys of a scope are ascending, so that no key occurs
/// twice, and they are the keys that the roster seeds there and the keys
/// that the records bring.
pub proof fn lemma_department_keys(
    data: Seq<ProcessedRecordView>,
    roster: Seq<DepartmentRecordView>,
    scope: Option<u8>,
    m: int,
)
    requires
        0 <= m <= data.len(),
    ensures
        ascending(department_keys(data, roster, scope, m)),
        department_keys(data, roster, scope, m).no_duplicates(),
        forall|x: DeptKeyView|
            #![trigger department_keys(data, roster, scope, m).contains(x)]
            department_keys(data, roster, scope, m).contains(x) <==> (on_roster(
                roster,
                x,
                roster.len() as int,
            ) && seeded_in(data, roster, x, scope)) || brought(data, x, scope, m),
    decreases m,
{
    if m > 0 {
        lemma_department_keys(data, roster, scope, m - 1);
        let before = department_keys(data, roster, scope, m - 1);
        let k = record_key(data[m - 1]);
        lemma_insert_key(before, k);
        assert forall|x: DeptKeyView|
            department_keys(data, roster, scope, m).contains(x) <==> (on_roster(
                roster,
                x,
                roster.len() as int,
            ) && seeded_in(data, roster, x, scope)) || brought(data, x, scope, m) by {
            if brought(data, x, scope, m) {
                let j = choose|j: int|
                    0 <= j < m && j < data.len() && brings_key(#[trigger] data[j], scope)
                        && record_key(data[j]) == x;
                if j < m - 1 {
                    assert(brought(data, x, scope, m - 1));
                }
            }
            if brought(data, x, scope, m - 1) {
                let j = choose|j: int|
                    0 <= j < m - 1 && j < data.len() && brings_key(#[trigger] data[j], scope)
                        && record_key(data[j]) == x;
                assert(0 <= j < m && brings_key(data[j], scope) && record_key(data[j]) == x);
            }
            if x == k && brings_key(data[m - 1], scope) {
                assert(brings_key(data[m - 1], scope) && record_key(data[m - 1]) == x);
            }
        }
    } else {
        lemma_seeded_keys(data, roster, scope, roster.len() as int);
        assert forall|x: DeptKeyView| !brought(data, x, scope, m) by {}
    }
    lemma_ascending_is_distinct(department_keys(data, roster, scope, m));
}

/// A department of the roster has an entry, and the apartment of that entry
/// is one of the table.
pub proof fn lemma_roster_department(roster: Seq<DepartmentRecordView>, k: DeptKeyView)
    requires
        on_roster(roster, k, roster.len() as int),
    ensures
        department_entry(roster, k) is Some,
        roster_key(department_entry(roster, k)->0) == k,
        is_listed(roster, department_entry(roster, k)->0.apartment),
{
    lemma_department_entry(roster, k);
    let i = choose|i: int| 0 <= i < roster.len() && roster_key(#[trigger] roster[i]) == k;
    assert(is_home(roster, roster_key(roster[i]), department_entry(roster, k)->0.apartment));
}

/// The roster has an entry for exactly the keys that occur in it.
pub proof fn lemma_department_entry(roster: Seq<DepartmentRecordView>, k: DeptKeyView)
    ensures
        department_entry(roster, k) is Some <==> on_roster(roster, k, roster.len() as int),
        department_entry(roster, k) is Some ==> roster_key(department_entry(roster, k)->0) == k,
    decreases roster.len(),
{
    if roster.len() > 0 {
        let rest = roster.drop_last();
        lemma_department_entry(rest, k);
        if roster_key(roster.last()) == k {
            assert(roster_key(roster[roster.len() - 1]) == k);
        } else {
            if on_roster(roster, k, roster.len() as int) {
                let i = choose|i: int|
                    0 <= i < roster.len() && roster_key(#[trigger] roster[i]) == k;
                assert(roster_key(rest[i]) == k);
            }
            if on_roster(rest, k, rest.len() as int) {
                let i = choose|i: int| 0 <= i < rest.len() && roster_key(#[trigger] rest[i]) == k;
                assert(roster_key(roster[i]) == k);
            }
        }
    }
}

} // verus!
