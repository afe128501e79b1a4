//! Text building blocks: decimal numerals, string comparison and the labels
//! that appear in the report.

use vstd::prelude::*;
use vstd::string::*;

verus! {

/// The character that stands for one decimal digit.
pub open spec fn digit_char(d: int) -> char {
    if d == 0 {
        '0'
    } else if d == 1 {
        '1'
    } else if d == 2 {
        '2'
    } else if d == 3 {
        '3'
    } else if d == 4 {
        '4'
    } else if d == 5 {
        '5'
    } else if d == 6 {
        '6'
    } else if d == 7 {
        '7'
    } else if d == 8 {
        '8'
    } else {
        '9'
    }
}

/// The decimal digits of a natural number, most significant first, without
/// leading zeros (zero itself is the single digit `0`).
pub open spec fn digits(n: nat) -> Seq<char>
    decreases n,
{
    if n < 10 {
        seq![digit_char(n as int)]
    } else {
        digits(n / 10).push(digit_char((n % 10) as int))
    }
}

/// The decimal numeral of an integer: a minus sign for a negative number,
/// then the digits of its magnitude.
pub open spec fn decimal(n: int) -> Seq<char> {
    if n < 0 {
        seq!['-'] + digits((-n) as nat)
    } else {
        digits(n as nat)
    }
}

fn digit_str(d: u64) -> (s: &'static str)
    requires
        d < 10,
    ensures
        s@ == seq![digit_char(d as int)],
{
    proof {
        reveal_strlit("0");
        reveal_strlit("1");
        reveal_strlit("2");
        reveal_strlit("3");
        reveal_strlit("4");
        reveal_strlit("5");
        reveal_strlit("6");
        reveal_strlit("7");
        reveal_strlit("8");
        reveal_strlit("9");
    }
    let s: &'static str = if d == 0 {
        "0"
    } else if d == 1 {
        "1"
    } else if d == 2 {
        "2"
    } else if d == 3 {
        "3"
    } else if d == 4 {
        "4"
    } else if d == 5 {
        "5"
    } else if d == 6 {
        "6"
    } else if d == 7 {
        "7"
    } else if d == 8 {
        "8"
    } else {
        "9"
    };
    assert(s@ =~= seq![digit_char(d as int)]);
    s
}

fn push_digits(out: &mut String, n: u64)
    ensures
        final(out)@ == old(out)@ + digits(n as nat),
    decreases n,
{
    if n >= 10 {
        push_digits(out, n / 10);
    }
    out.append(digit_str(n % 10));
    assert(final(out)@ =~= old(out)@ + digits(n as nat));
}

/// Appends the decimal numeral of `n` to `out`.
pub fn push_decimal(out: &mut String, n: i64)
    ensures
        final(out)@ == old(out)@ + decimal(n as int),
{
    if n < 0 {
        proof {
            reveal_strlit("-");
        }
        out.append("-");
        let magnitude: u64 = if n == i64::MIN {
            0x8000_0000_0000_0000u64
        } else {
            (-n) as u64
        };
        push_digits(out, magnitude);
        assert(final(out)@ =~= old(out)@ + decimal(n as int));
    } else {
        push_digits(out, n as u64);
    }
}

/// The decimal numeral of `n` as a string.
pub fn decimal_string(n: i64) -> (s: String)
    ensures
        s@ == decimal(n as int),
{
    let mut s = String::new();
    push_decimal(&mut s, n);
    assert(s@ =~= decimal(n as int));
    s
}

/// The name of a grade as the report prints it; empty for a grade outside
/// the three that the school has.
pub open spec fn grade_name_spec(grade: u8) -> Seq<char> {
    if grade == 1 {
        "高一"@
    } else if grade == 2 {
        "高二"@
    } else if grade == 3 {
        "高三"@
    } else {
        ""@
    }
}

/// The label of an apartment: apartment one has its own numeral, every other
/// apartment is labelled as the second.
pub open spec fn apt_label(apt: u8) -> Seq<char> {
    (if apt == 1 {
        "一"@
    } else {
        "二"@
    }) + "号公寓"@
}

/// The label of a department group: grade name, department code, and the
/// department's leader in brackets on a second line.
pub open spec fn dept_label(grade: u8, dept: Seq<char>, leader: Seq<char>) -> Seq<char> {
    grade_name_spec(grade) + dept + "部\n("@ + leader + ")"@
}

/// The label of a classroom group.
pub open spec fn class_label(class: u8) -> Seq<char> {
    decimal(class as int) + "班"@
}

/// The label of a dormitory.
pub open spec fn dorm_label(dorm: u16) -> Seq<char> {
    decimal(dorm as int) + "宿舍"@
}

/// Whether `a` comes strictly before `b` when strings are compared character
/// by character, a proper prefix coming first.
pub open spec fn text_lt(a: Seq<char>, b: Seq<char>) -> bool {
    exists|i: int|
        0 <= i <= a.len() && i <= b.len() && #[trigger] a.take(i) == b.take(i) && (if i
            == a.len() {
            i < b.len()
        } else {
            i < b.len() && (a[i] as u32) < (b[i] as u32)
        })
}

/// The name of a grade.
pub fn grade_name(grade: u8) -> (name: &'static str)
    ensures
        name@ == grade_name_spec(grade),
{
    match grade {
        1 => "高一",
        2 => "高二",
        3 => "高三",
        _ => "",
    }
}

/// The label of an apartment.
pub fn apt_display_name(apt: u8) -> (label: String)
    ensures
        label@ == apt_label(apt),
{
    let mut label = String::new();
    label.append(if apt == 1 {
        "一"
    } else {
        "二"
    });
    label.append("号公寓");
    assert(label@ =~= apt_label(apt));
    label
}

/// The label of a department group.
pub fn dept_display(grade: u8, dept: &str, leader: &str) -> (label: String)
    ensures
        label@ == dept_label(grade, dept@, leader@),
{
    let mut label = String::new();
    label.append(grade_name(grade));
    label.append(dept);
    label.append("部\n(");
    label.append(leader);
    label.append(")");
    assert(label@ =~= dept_label(grade, dept@, leader@));
    label
}

/// The label of a classroom group.
pub fn class_display(class: u8) -> (label: String)
    ensures
        label@ == class_label(class),
{
    let mut label = decimal_string(class as i64);
    label.append("班");
    label
}

/// The label of a dormitory.
pub fn dorm_display(dorm: u16) -> (label: String)
    ensures
        label@ == dorm_label(dorm),
{
    let mut label = decimal_string(dorm as i64);
    label.append("宿舍");
    label
}

/// Whether a department code is the single letter `A`.
pub fn is_code_a(dept: &str) -> (yes: bool)
    ensures
        yes == (dept@ == seq!['A']),
{
    let yes = dept.unicode_len() == 1 && dept.get_char(0) == 'A';
    assert(yes == (dept@ =~= seq!['A']));
    yes
}

/// Compares two strings character by character.
pub fn text_before(a: &str, b: &str) -> (before: bool)
    ensures
        before == text_lt(a@, b@),
{
    let n: usize = a.unicode_len();
    let m: usize = b.unicode_len();
    let mut i: usize = 0;
    while i < n && i < m
        invariant
            i <= n,
            i <= m,
            n == a@.len(),
            m == b@.len(),
            a@.take(i as int) == b@.take(i as int),
        decreases n - i,
    {
        let x = a.get_char(i);
        let y = b.get_char(i);
        if x != y {
            proof {
                lemma_first_difference_decides(a@, b@, i as int);
            }
            return (x as u32) < (y as u32);
        }
        assert(a@.take(i + 1) =~= a@.take(i as int).push(a@[i as int]));
        assert(b@.take(i + 1) =~= b@.take(i as int).push(b@[i as int]));
        i = i + 1;
    }
    proof {
        lemma_first_difference_decides(a@, b@, i as int);
    }
    i == n && i < m
}

/// Once two strings agree on their first `i` characters and part ways at
/// position `i` (or one of them ends there), that position alone decides
/// which comes first.
pub proof fn lemma_first_difference_decides(a: Seq<char>, b: Seq<char>, i: int)
    requires
        0 <= i <= a.len(),
        i <= b.len(),
        a.take(i) == b.take(i),
        i == a.len() || i == b.len() || a[i] != b[i],
    ensures
        text_lt(a, b) == (if i == a.len() {
            i < b.len()
        } else {
            i < b.len() && (a[i] as u32) < (b[i] as u32)
        }),
{
    let decided = if i == a.len() {
        i < b.len()
    } else {
        i < b.len() && (a[i] as u32) < (b[i] as u32)
    };
    if text_lt(a, b) {
        let j = choose|j: int|
            0 <= j <= a.len() && j <= b.len() && #[trigger] a.take(j) == b.take(j) && (if j
                == a.len() {
                j < b.len()
            } else {
                j < b.len() && (a[j] as u32) < (b[j] as u32)
            });
        if j < i {
            assert(a.take(i)[j] == a[j]);
            assert(b.take(i)[j] == b[j]);
        } else if j > i {
            assert(a.take(j)[i] == a[i]);
            assert(b.take(j)[i] == b[i]);
        }
        assert(decided);
    }
}

/// The first position at which two strings part ways, or at which one of
/// them ends.
pub proof fn lemma_first_difference(a: Seq<char>, b: Seq<char>, from: int) -> (i: int)
    requires
        0 <= from <= a.len(),
        from <= b.len(),
        a.take(from) == b.take(from),
    ensures
        from <= i <= a.len(),
        i <= b.len(),
        a.take(i) == b.take(i),
        i == a.len() || i == b.len() || a[i] != b[i],
    decreases a.len() - from,
{
    if from == a.len() || from == b.len() || a[from] != b[from] {
        from
    } else {
        assert(a.take(from + 1) =~= a.take(from).push(a[from]));
        assert(b.take(from + 1) =~= b.take(from).push(b[from]));
        lemma_first_difference(a, b, from + 1)
    }
}

/// No string comes before itself.
pub proof fn lemma_text_lt_irreflexive(a: Seq<char>)
    ensures
        !text_lt(a, a),
{
    lemma_first_difference_decides(a, a, a.len() as int);
}

/// Of two different strings one comes before the other.
pub proof fn lemma_text_lt_total(a: Seq<char>, b: Seq<char>)
    ensures
        a == b || text_lt(a, b) || text_lt(b, a),
        !(text_lt(a, b) && text_lt(b, a)),
{
    assert(a.take(0) =~= b.take(0));
    let i = lemma_first_difference(a, b, 0);
    lemma_first_difference_decides(a, b, i);
    lemma_first_difference_decides(b, a, i);
    if i == a.len() && i == b.len() {
        assert(a.take(i) =~= a);
        assert(b.take(i) =~= b);
    } else if i < a.len() && i < b.len() {
        assert(a[i] as u32 != b[i] as u32) by {
            vstd::utf8::char_u32_cast(a[i], a[i] as u32);
            vstd::utf8::char_u32_cast(b[i], b[i] as u32);
        }
    }
}

/// What comes before a string comes before everything after that string.
pub proof fn lemma_text_lt_transitive(a: Seq<char>, b: Seq<char>, c: Seq<char>)
    requires
        text_lt(a, b),
        text_lt(b, c),
    ensures
        text_lt(a, c),
{
    assert(a.take(0) =~= b.take(0));
    assert(b.take(0) =~= c.take(0));
    let i = lemma_first_difference(a, b, 0);
    let j = lemma_first_difference(b, c, 0);
    lemma_first_difference_decides(a, b, i);
    lemma_first_difference_decides(b, c, j);
    let d = if i <= j {
        i
    } else {
        j
    };
    assert(a.take(d) =~= c.take(d)) by {
        assert forall|x: int| 0 <= x < d implies a[x] == c[x] by {
            assert(a.take(i)[x] == b.take(i)[x]);
            assert(b.take(j)[x] == c.take(j)[x]);
        }
    }
    if i < j {
        assert(b.take(j)[i] == c.take(j)[i]);
    } else if j < i {
        assert(a.take(i)[j] == b.take(i)[j]);
    }
    lemma_first_difference_decides(a, c, d);
}

} // verus!
