//! Answers to a customs form: every person is a text of the questions
//! answered with yes, and a group is counted by the questions that anyone,
//! or that everyone, answered with yes.
use crate::text::{chars_of, line_groups, split_groups, string_of};
use vstd::prelude::*;
use vstd::string::StringSliceAdditionalSpecFns;
use vstd::utf8::encode_utf8;

verus! {

/// Whether the characters stand in rising order, none twice.
pub open spec fn rising(s: Seq<char>) -> bool {
    forall|i: int, j: int| 0 <= i < j < s.len() ==> s[i] < s[j]
}

/// Puts `c` into a rising sequence, unless it is there.
fn insert_rising(v: &mut Vec<char>, c: char)
    requires
        rising(old(v)@),
    ensures
        rising(final(v)@),
        final(v)@.to_set() == old(v)@.to_set().insert(c),
{
    let mut i: usize = 0;
    while i < v.len() && v[i] < c
        invariant
            0 <= i <= v.len(),
            *v == *old(v),
            forall|k: int| 0 <= k < i ==> v@[k] < c,
        decreases v.len() - i,
    {
        i += 1;
    }
    if i < v.len() && v[i] == c {
        assert(v@.to_set() =~= old(v)@.to_set().insert(c)) by {
            assert(v@[i as int] == c);
            assert(v@.to_set().contains(c));
        }
        return;
    }
    let ghost before = v@;
    v.insert(i, c);
    proof {
        before.insert_ensures(i as int, c);
        lemma_inserted(before, v@, i as int, c);
    }
}

/// What a rising sequence is after a character that it lacks was put at the
/// place where the greater characters begin.
proof fn lemma_inserted(before: Seq<char>, after: Seq<char>, i: int, c: char)
    requires
        rising(before),
        0 <= i <= before.len(),
        after == before.insert(i, c),
        forall|k: int| 0 <= k < i ==> before[k] < c,
        i < before.len() ==> c < before[i],
    ensures
        rising(after),
        after.to_set() == before.to_set().insert(c),
{
    before.insert_ensures(i, c);
    assert(after.len() == before.len() + 1);
    assert forall|k: int| 0 <= k < after.len() implies after[k] == (if k < i {
        before[k]
    } else if k == i {
        c
    } else {
        before[k - 1]
    }) by {}
    assert forall|a: int, b: int| 0 <= a < b < after.len() implies after[a] < after[b] by {
        if b > i && i < before.len() {
            assert(before[i] <= before[b - 1]);
        }
    }
    assert forall|x: char| after.to_set().contains(x) <==> before.to_set().insert(c).contains(
        x,
    ) by {
        if after.to_set().contains(x) {
            let k = choose|k: int| 0 <= k < after.len() && after[k] == x;
            if k < i {
                assert(before[k] == x);
            } else if k > i {
                assert(before[k - 1] == x);
            }
        }
        if before.to_set().contains(x) {
            let k = choose|k: int| 0 <= k < before.len() && before[k] == x;
            if k < i {
                assert(after[k] == x);
            } else {
                assert(after[k + 1] == x);
            }
        }
        if x == c {
            assert(after[i] == c);
        }
    }
    assert(after.to_set() =~= before.to_set().insert(c));
}

/// The characters of `chars` in rising order, each once.
fn in_rising_order(chars: &Vec<char>) -> (r: Vec<char>)
    ensures
        rising(r@),
        r@.to_set() == chars@.to_set(),
{
    let mut out: Vec<char> = Vec::new();
    let mut i: usize = 0;
    proof {
        assert(out@.to_set() =~= chars@.take(0).to_set());
    }
    while i < chars.len()
        invariant
            0 <= i <= chars.len(),
            rising(out@),
            out@.to_set() == chars@.take(i as int).to_set(),
        decreases chars.len() - i,
    {
        insert_rising(&mut out, chars[i]);
        proof {
            let a = chars@.take(i as int);
            let b = chars@.take(i + 1);
            assert forall|x: char| b.to_set().contains(x) <==> a.to_set().insert(
                chars@[i as int],
            ).contains(x) by {
                if b.to_set().contains(x) {
                    let k = choose|k: int| 0 <= k < b.len() && b[k] == x;
                    if k < i {
                        assert(a[k] == x);
                    }
                }
                if a.to_set().contains(x) {
                    let k = choose|k: int| 0 <= k < a.len() && a[k] == x;
                    assert(b[k] == x);
                }
                if x == chars@[i as int] {
                    assert(b[i as int] == x);
                }
            }
            assert(b.to_set() =~= a.to_set().insert(chars@[i as int]));
        }
        i += 1;
    }
    assert(chars@.take(chars.len() as int) =~= chars@);
    out
}

/// Whether `c` is one of `chars`.
fn holds(chars: &Vec<char>, c: char) -> (r: bool)
    ensures
        r == chars@.to_set().contains(c),
{
    let mut i: usize = 0;
    while i < chars.len()
        invariant
            0 <= i <= chars.len(),
            forall|k: int| 0 <= k < i ==> chars@[k] != c,
        decreases chars.len() - i,
    {
        if chars[i] == c {
            assert(chars@.to_set().contains(chars@[i as int]));
            return true;
        }
        i += 1;
    }
    proof {
        if chars@.to_set().contains(c) {
            let k = choose|k: int| 0 <= k < chars@.len() && chars@[k] == c;
            assert(chars@[k] != c);
        }
    }
    false
}

/// The characters that stand in `s1` or in `s2`, in rising order, each
/// once.
pub fn union(s1: String, s2: &str) -> (r: String)
    ensures
        rising(r@),
        r@.to_set() == s1@.to_set().union(s2@.to_set()),
{
    let a = chars_of(s1.as_str());
    let b = chars_of(s2);
    let mut out = in_rising_order(&a);
    let mut i: usize = 0;
    proof {
        assert(out@.to_set() =~= a@.to_set().union(b@.take(0).to_set()));
    }
    while i < b.len()
        invariant
            0 <= i <= b.len(),
            rising(out@),
            out@.to_set() == a@.to_set().union(b@.take(i as int).to_set()),
        decreases b.len() - i,
    {
        insert_rising(&mut out, b[i]);
        proof {
            let p = b@.take(i as int);
            let q = b@.take(i + 1);
            assert forall|x: char| q.to_set().contains(x) <==> p.to_set().insert(
                b@[i as int],
            ).contains(x) by {
                if q.to_set().contains(x) {
                    let k = choose|k: int| 0 <= k < q.len() && q[k] == x;
                    if k < i {
                        assert(p[k] == x);
                    }
                }
                if p.to_set().contains(x) {
                    let k = choose|k: int| 0 <= k < p.len() && p[k] == x;
                    assert(q[k] == x);
                }
                if x == b@[i as int] {
                    assert(q[i as int] == x);
                }
            }
            assert(out@.to_set() =~= a@.to_set().union(q.to_set()));
        }
        i += 1;
    }
    proof {
        assert(b@.take(b.len() as int) =~= b@);
    }
    string_of(&out)
}

/// The characters that stand in `s1` and in `s2`, in rising order, each
/// once.
pub fn intersection(s1: String, s2: &str) -> (r: String)
    ensures
        rising(r@),
        r@.to_set() == s1@.to_set().intersect(s2@.to_set()),
{
    let a = chars_of(s1.as_str());
    let b = chars_of(s2);
    let sorted = in_rising_order(&a);
    let mut out: Vec<char> = Vec::new();
    let mut i: usize = 0;
    proof {
        assert(out@.to_set() =~= sorted@.take(0).to_set().intersect(b@.to_set()));
    }
    while i < sorted.len()
        invariant
            0 <= i <= sorted.len(),
            rising(sorted@),
            rising(out@),
            forall|k: int| 0 <= k < out@.len() ==> sorted@.take(i as int).to_set().contains(out@[k]),
            out@.to_set() == sorted@.take(i as int).to_set().intersect(b@.to_set()),
        decreases sorted.len() - i,
    {
        let c = sorted[i];
        let ghost p = sorted@.take(i as int);
        let ghost q = sorted@.take(i + 1);
        let ghost before = out@;
        proof {
            assert forall|x: char| q.to_set().contains(x) <==> p.to_set().insert(c).contains(
                x,
            ) by {
                if q.to_set().contains(x) {
                    let k = choose|k: int| 0 <= k < q.len() && q[k] == x;
                    if k < i {
                        assert(p[k] == x);
                    }
                }
                if p.to_set().contains(x) {
                    let k = choose|k: int| 0 <= k < p.len() && p[k] == x;
                    assert(q[k] == x);
                }
                if x == c {
                    assert(q[i as int] == x);
                }
            }
        }
        if holds(&b, c) {
            out.push(c);
            proof {
                assert forall|m: int, n: int| 0 <= m < n < out@.len() implies out@[m] < out@[n] by {
                    if n == out@.len() - 1 {
                        assert(before[m] == out@[m]);
                        assert(p.to_set().contains(before[m]));
                        let k = choose|k: int| 0 <= k < p.len() && p[k] == before[m];
                        assert(sorted@[k] == before[m]);
                    } else {
                        assert(before[m] == out@[m] && before[n] == out@[n]);
                    }
                }
                assert forall|x: char| out@.to_set().contains(x) <==> before.to_set().insert(
                    c,
                ).contains(x) by {
                    if out@.to_set().contains(x) {
                        let k = choose|k: int| 0 <= k < out@.len() && out@[k] == x;
                        if k < before.len() {
                            assert(before[k] == x);
                        }
                    }
                    if before.to_set().contains(x) {
                        let k = choose|k: int| 0 <= k < before.len() && before[k] == x;
                        assert(out@[k] == x);
                    }
                    if x == c {
                        assert(out@[out@.len() - 1] == c);
                    }
                }
                assert(out@.to_set() =~= q.to_set().intersect(b@.to_set()));
            }
        } else {
            proof {
                assert(out@.to_set() =~= q.to_set().intersect(b@.to_set()));
            }
        }
        proof {
            assert forall|k: int| 0 <= k < out@.len() implies q.to_set().contains(out@[k]) by {
                if k < before.len() {
                    assert(p.to_set().contains(before[k]));
                }
            }
        }
        i += 1;
    }
    proof {
        assert(sorted@.take(sorted.len() as int) =~= sorted@);
    }
    string_of(&out)
}

/// The questions that anyone of the first `n` persons answered with yes.
pub open spec fn anyone(g: Seq<String>, n: int) -> Set<char>
    decreases n,
{
    if n <= 0 {
        Set::empty()
    } else {
        anyone(g, n - 1).union(g[n - 1]@.to_set())
    }
}

/// The questions that every one of the persons from the second to the
/// `n`-th answered with yes, among those of the first person.
pub open spec fn everyone(g: Seq<String>, n: int) -> Set<char>
    decreases n,
{
    if n <= 1 {
        g[0]@.to_set()
    } else {
        everyone(g, n - 1).intersect(g[n - 1]@.to_set())
    }
}

/// The number of questions that anyone of the group answered with yes,
/// counted as the bytes of their characters.
pub fn count_anyone(g: &Vec<String>) -> (r: usize)
    ensures
        exists|u: Seq<char>|
            rising(u) && u.to_set() == anyone(g@, g@.len() as int) && r == encode_utf8(u).len() as usize,
{
    let mut acc = string_of(&Vec::new());
    let mut i: usize = 0;
    proof {
        assert(acc@.to_set() =~= Set::<char>::empty());
    }
    while i < g.len()
        invariant
            0 <= i <= g@.len(),
            rising(acc@),
            acc@.to_set() == anyone(g@, i as int),
        decreases g@.len() - i,
    {
        acc = union(acc, g[i].as_str());
        i += 1;
    }
    let text = acc.as_str();
    let n = text.len();
    assert(text.spec_bytes() == encode_utf8(acc@));
    n
}

/// The number of questions that everyone of the group answered with yes,
/// counted as the bytes of their characters; 0 for a group of nobody.  The
/// answers of a single person are counted as they are written.
pub fn count_everyone(g: &Vec<String>) -> (r: usize)
    ensures
        g@.len() == 0 ==> r == 0,
        g@.len() == 1 ==> r == encode_utf8(g@[0]@).len() as usize,
        g@.len() >= 2 ==> exists|u: Seq<char>|
            rising(u) && u.to_set() == everyone(g@, g@.len() as int) && r == encode_utf8(u).len() as usize,
{
    if g.len() == 0 {
        return 0;
    }
    if g.len() == 1 {
        let text = g[0].as_str();
        let n = text.len();
        assert(text.spec_bytes() == encode_utf8(g@[0]@));
        return n;
    }
    let first = g[0].clone();
    assert(first@ == g@[0]@);
    let mut acc = intersection(first, g[1].as_str());
    let mut i: usize = 2;
    assert(everyone(g@, 1) == g@[0]@.to_set());
    while i < g.len()
        invariant
            2 <= i <= g@.len(),
            rising(acc@),
            acc@.to_set() == everyone(g@, i as int),
        decreases g@.len() - i,
    {
        acc = intersection(acc, g[i].as_str());
        i += 1;
    }
    let text = acc.as_str();
    let n = text.len();
    assert(text.spec_bytes() == encode_utf8(acc@));
    n
}

/// Reads the answers of all groups: the groups are set apart by empty
/// lines, and the answers of each person are put in rising order, each once.
pub fn read_input(lines: &Vec<String>) -> (r: Vec<Vec<String>>)
    ensures
        r@.len() == line_groups(lines@).len(),
        forall|g: int|
            0 <= g < r@.len() ==> (#[trigger] r@[g])@.len() == line_groups(lines@)[g].len(),
        forall|g: int, i: int|
            0 <= g < r@.len() && 0 <= i < r@[g]@.len() ==> rising((#[trigger] r@[g]@[i])@)
                && r@[g]@[i]@.to_set() == line_groups(lines@)[g][i]@.to_set(),
{
    let groups = split_groups(lines);
    let ghost all = line_groups(lines@);
    let mut result: Vec<Vec<String>> = Vec::new();
    let mut g: usize = 0;
    while g < groups.len()
        invariant
            0 <= g <= groups@.len(),
            crate::text::groups_view(groups@) == all,
            result@.len() == g,
            forall|k: int| 0 <= k < g ==> (#[trigger] result@[k])@.len() == all[k].len(),
            forall|k: int, i: int|
                0 <= k < g && 0 <= i < result@[k]@.len() ==> rising((#[trigger] result@[k]@[i])@)
                    && result@[k]@[i]@.to_set() == all[k][i]@.to_set(),
        decreases groups@.len() - g,
    {
        assert(all[g as int] == groups@[g as int]@);
        let group = &groups[g];
        let mut answers: Vec<String> = Vec::new();
        let mut i: usize = 0;
        while i < group.len()
            invariant
                0 <= i <= group@.len(),
                answers@.len() == i,
                forall|k: int|
                    0 <= k < i ==> rising((#[trigger] answers@[k])@) && answers@[k]@.to_set()
                        == group@[k]@.to_set(),
            decreases group@.len() - i,
        {
            let tidy = union(group[i].clone(), "");
            proof {
                reveal_strlit("");
                assert(""@.to_set() =~= Set::<char>::empty());
                assert(group@[i as int]@.to_set().union(Set::<char>::empty()) =~= group@[i as int]@.to_set());
            }
            answers.push(tidy);
            i += 1;
        }
        result.push(answers);
        g += 1;
    }
    result
}

} // verus!
